use kvs::errors::KvsStorageEngine;
use kvs::frame::{append_frame, frame_log, split_frames};
use kvs::kvmessage::KvMessage;
use kvs::kvsengine::kvstore::{KvIndex, KvRecord, KvStore, Segment, MAX_SIZE_THRESHOLD};
use kvs::kvsengine::KvsEngine;
use kvs::naming::segment_id_of;
use kvs::KvsError;

fn record(key: &str, value: &str) -> Vec<u8> {
    format!("{{\"key\":\"{}\",\"value\":\"{}\"}}", key, value).into_bytes()
}

fn value_of(payload: &[u8]) -> String {
    let v: serde_json::Value = serde_json::from_slice(payload).unwrap();
    v.get("value").unwrap().as_str().unwrap().to_string()
}

fn fresh() -> KvStore {
    KvStore::open(Vec::new(), Vec::new())
}

fn prefix_at(data: &[u8], off: u64) -> i64 {
    let o = off as usize;
    let mut b = [0u8; 8];
    b.copy_from_slice(&data[o..o + 8]);
    i64::from_le_bytes(b)
}

fn sealed_bytes(s: &KvStore) -> usize {
    s.segment_images()
        .iter()
        .filter(|g| g.id != s.active_file_number())
        .map(|g| g.data.len())
        .sum()
}

fn reopen(s: &KvStore) -> KvStore {
    KvStore::open_with_threshold(s.segment_images(), s.sync_index(), s.size_threshold())
}

#[test]
fn fresh_store_has_empty_segment_zero() {
    let s = fresh();
    assert_eq!(s.active_file_number(), 0);
    assert_eq!(s.segment(0), Some(Vec::new()));
    assert_eq!(s.size_threshold(), MAX_SIZE_THRESHOLD);
    assert!(s.sync_index().is_empty());
}

#[test]
fn set_then_get_round_trips() {
    let mut s = fresh();
    let r = record("k", "v");
    let e = s.set("k".to_string(), r.clone()).unwrap();
    assert_eq!(e.key, "k");
    assert_eq!(e.file_number, 0);
    assert_eq!(e.record_offset, 0);
    assert_eq!(e.record_length, r.len() as u64);
    let got = s.get("k".to_string()).unwrap().unwrap();
    assert_eq!(got, r);
    assert_eq!(value_of(&got), "v");
}

#[test]
fn set_appends_one_frame() {
    let mut s = fresh();
    let r = record("a", "1");
    s.set("a".to_string(), r.clone()).unwrap();
    let seg = s.segment(0).unwrap();
    assert_eq!(seg.len(), 8 + r.len());
    assert_eq!(prefix_at(&seg, 0), r.len() as i64);
    assert_eq!(&seg[8..], &r[..]);
}

#[test]
fn overwrite_keeps_latest_and_one_entry() {
    let mut s = fresh();
    s.set("k".to_string(), record("k", "v1")).unwrap();
    s.set("k".to_string(), record("k", "v2")).unwrap();
    let got = s.get("k".to_string()).unwrap().unwrap();
    assert_eq!(value_of(&got), "v2");
    let idx = s.sync_index();
    assert_eq!(idx.iter().filter(|e| e.key == "k").count(), 1);
    assert_eq!(idx[0].record_offset, 8 + record("k", "v1").len() as u64);
}

#[test]
fn remove_leaves_tombstone() {
    let mut s = fresh();
    let r = record("k", "v");
    let e = s.set("k".to_string(), r.clone()).unwrap();
    s.remove("k".to_string()).unwrap();
    assert_eq!(s.get("k".to_string()).unwrap(), None);
    let seg = s.segment(e.file_number).unwrap();
    assert_eq!(prefix_at(&seg, e.record_offset), -(r.len() as i64));
    assert_eq!(&seg[8..], &r[..]);
    // the index entry stays; a second remove leaves the tombstone as it is
    assert_eq!(s.sync_index().len(), 1);
    s.remove("k".to_string()).unwrap();
    assert_eq!(s.segment(0).unwrap(), seg);
}

#[test]
fn remove_absent_key_changes_nothing() {
    let mut s = fresh();
    s.set("a".to_string(), record("a", "1")).unwrap();
    let before = s.segment(0).unwrap();
    assert!(s.remove("zz".to_string()).is_ok());
    assert_eq!(s.segment(0).unwrap(), before);
    assert_eq!(s.sync_index().len(), 1);
    assert_eq!(value_of(&s.get("a".to_string()).unwrap().unwrap()), "1");
}

#[test]
fn empty_key_is_not_found() {
    let mut s = fresh();
    s.set("".to_string(), record("", "x")).unwrap();
    assert_eq!(s.get("".to_string()).unwrap(), None);
    let before = s.segment(0).unwrap();
    assert!(s.remove("".to_string()).is_ok());
    assert_eq!(s.segment(0).unwrap(), before);
}

#[test]
fn missing_key_is_not_found() {
    let s = fresh();
    assert_eq!(s.get("nope".to_string()).unwrap(), None);
}

#[test]
fn rotation_opens_next_segment() {
    let mut s = KvStore::open_with_threshold(Vec::new(), Vec::new(), 20);
    let r1 = record("a", "1");
    s.set("a".to_string(), r1.clone()).unwrap();
    assert_eq!(s.active_file_number(), 1);
    assert_eq!(s.segment(1), Some(Vec::new()));
    let sealed = s.segment(0).unwrap();
    assert_eq!(sealed.len(), 8 + r1.len());
    let e = s.set("b".to_string(), record("b", "2")).unwrap();
    assert_eq!(e.file_number, 1);
    assert_eq!(s.segment(0).unwrap(), sealed);
    assert_eq!(value_of(&s.get("a".to_string()).unwrap().unwrap()), "1");
    assert_eq!(value_of(&s.get("b".to_string()).unwrap().unwrap()), "2");
}

#[test]
fn no_rotation_under_threshold() {
    let mut s = fresh();
    for i in 0..5 {
        s.set(format!("k{}", i), record("k", "v")).unwrap();
    }
    assert_eq!(s.active_file_number(), 0);
}

#[test]
fn default_threshold_rotates_after_about_ten_records() {
    let mut s = fresh();
    let mut n = 0;
    while s.active_file_number() == 0 {
        s.set(format!("key{}", n), record("key", "value")).unwrap();
        n += 1;
    }
    assert_eq!(s.active_file_number(), 1);
    assert!(n > 5);
}

#[test]
fn compaction_keeps_live_data_and_shrinks_sealed_segments() {
    let mut s = KvStore::open_with_threshold(Vec::new(), Vec::new(), 60);
    s.set("a".to_string(), record("a", "old")).unwrap();
    s.set("b".to_string(), record("b", "2")).unwrap();
    s.set("a".to_string(), record("a", "new")).unwrap();
    s.set("c".to_string(), record("c", "3")).unwrap();
    s.remove("c".to_string()).unwrap();
    s.set("d".to_string(), record("d", "4")).unwrap();
    s.set("e".to_string(), record("e", "5")).unwrap();
    assert!(s.active_file_number() >= 1);
    let before: Vec<_> = ["a", "b", "c", "d", "e"]
        .iter()
        .map(|k| s.get(k.to_string()).unwrap())
        .collect();
    let size_before = sealed_bytes(&s);
    s.compaction().unwrap();
    let after: Vec<_> = ["a", "b", "c", "d", "e"]
        .iter()
        .map(|k| s.get(k.to_string()).unwrap())
        .collect();
    assert_eq!(before, after);
    assert!(sealed_bytes(&s) < size_before);
    // each sealed segment now holds exactly the frames the index points at
    let idx = s.sync_index();
    for g in s.segment_images() {
        if g.id != s.active_file_number() {
            let live: u64 = idx.iter().filter(|e| e.file_number == g.id).map(|e| 8 + e.record_length).sum();
            assert_eq!(g.data.len() as u64, live);
        }
    }
    // a second compaction has nothing left to reclaim
    let size_once = sealed_bytes(&s);
    s.compaction().unwrap();
    assert_eq!(sealed_bytes(&s), size_once);
}

#[test]
fn compaction_leaves_active_segment() {
    let mut s = fresh();
    s.set("a".to_string(), record("a", "1")).unwrap();
    let before = s.segment(0).unwrap();
    s.compaction().unwrap();
    assert_eq!(s.segment(0).unwrap(), before);
    assert_eq!(value_of(&s.get("a".to_string()).unwrap().unwrap()), "1");
}

#[test]
fn compaction_empties_segment_without_live_entries() {
    let mut s = KvStore::open_with_threshold(Vec::new(), Vec::new(), 10);
    s.set("a".to_string(), record("a", "1")).unwrap();
    s.set("a".to_string(), record("a", "2")).unwrap();
    assert_eq!(s.active_file_number(), 2);
    s.compaction().unwrap();
    assert_eq!(s.segment(0), Some(Vec::new()));
    assert_eq!(value_of(&s.get("a".to_string()).unwrap().unwrap()), "2");
}

#[test]
fn recovery_reproduces_lookups() {
    let mut s = KvStore::open_with_threshold(Vec::new(), Vec::new(), 50);
    for (k, v) in [("x", "1"), ("y", "2"), ("z", "3"), ("x", "4")] {
        s.set(k.to_string(), record(k, v)).unwrap();
    }
    s.remove("y".to_string()).unwrap();
    let r = reopen(&s);
    for k in ["x", "y", "z", "w"] {
        assert_eq!(r.get(k.to_string()).unwrap(), s.get(k.to_string()).unwrap());
    }
    assert_eq!(r.active_file_number(), s.active_file_number());
}

fn entry_json(e: &KvIndex) -> Vec<u8> {
    format!(
        "{{\"key\":\"{}\",\"file_number\":{},\"record_offset\":{},\"record_length\":{}}}",
        e.key, e.file_number, e.record_offset, e.record_length
    )
    .into_bytes()
}

fn entry_from_json(p: &[u8]) -> Option<KvIndex> {
    let v: serde_json::Value = serde_json::from_slice(p).ok()?;
    Some(KvIndex::new(
        v.get("key")?.as_str()?.to_string(),
        v.get("file_number")?.as_u64()?,
        v.get("record_offset")?.as_u64()?,
        v.get("record_length")?.as_u64()?,
    ))
}

#[test]
fn recovery_through_index_log() {
    let mut s = fresh();
    s.set("a".to_string(), record("a", "1")).unwrap();
    s.set("b".to_string(), record("b", "2")).unwrap();
    let payloads: Vec<Vec<u8>> = s.sync_index().iter().map(entry_json).collect();
    let log = frame_log(&payloads);
    let back = split_frames(&log);
    assert_eq!(back, payloads);
    let entries: Vec<KvIndex> = back.iter().filter_map(|p| entry_from_json(p)).collect();
    let r = KvStore::open(s.segment_images(), entries);
    assert_eq!(value_of(&r.get("a".to_string()).unwrap().unwrap()), "1");
    assert_eq!(value_of(&r.get("b".to_string()).unwrap().unwrap()), "2");
}

#[test]
fn scenario_set_remove_compact_reopen() {
    let mut s = fresh();
    s.set("a".to_string(), record("a", "1")).unwrap();
    s.set("b".to_string(), record("b", "2")).unwrap();
    s.remove("a".to_string()).unwrap();
    s.compaction().unwrap();
    let r = reopen(&s);
    assert_eq!(r.get("a".to_string()).unwrap(), None);
    assert_eq!(value_of(&r.get("b".to_string()).unwrap().unwrap()), "2");
}

#[test]
fn replay_keeps_last_entry_per_key() {
    let mut data = Vec::new();
    append_frame(&mut data, &record("k", "first"));
    let second = data.len() as u64;
    append_frame(&mut data, &record("k", "second"));
    let entries = vec![
        KvIndex::new("k".to_string(), 0, 0, 10),
        KvIndex::new("k".to_string(), 0, second, 10),
    ];
    let s = KvStore::open(vec![Segment::new(0, data)], entries);
    assert_eq!(s.sync_index().len(), 1);
    assert_eq!(value_of(&s.get("k".to_string()).unwrap().unwrap()), "second");
}

#[test]
fn open_makes_highest_segment_active() {
    let s = KvStore::open(vec![Segment::new(3, vec![1, 2]), Segment::new(7, Vec::new())], Vec::new());
    assert_eq!(s.active_file_number(), 7);
    assert_eq!(s.segment(3), Some(vec![1, 2]));
    assert_eq!(s.segment(5), None);
}

#[test]
fn index_log_skips_dead_and_stops_at_truncated_frame() {
    let mut log = Vec::new();
    append_frame(&mut log, b"one");
    log.extend_from_slice(&(-3i64).to_le_bytes());
    log.extend_from_slice(b"two");
    append_frame(&mut log, b"three");
    log.extend_from_slice(&(10i64).to_le_bytes());
    log.extend_from_slice(b"four");
    let got = split_frames(&log);
    assert_eq!(got, vec![b"one".to_vec(), b"three".to_vec()]);
}

#[test]
fn frame_log_layout() {
    let log = frame_log(&vec![b"ab".to_vec(), b"c".to_vec()]);
    assert_eq!(log, vec![2, 0, 0, 0, 0, 0, 0, 0, b'a', b'b', 1, 0, 0, 0, 0, 0, 0, 0, b'c']);
}

#[test]
fn get_on_missing_segment_is_an_error() {
    let s = KvStore::open(Vec::new(), vec![KvIndex::new("k".to_string(), 9, 0, 3)]);
    assert!(matches!(s.get("k".to_string()), Err(KvsError::OtherError)));
}

#[test]
fn get_on_truncated_frame_is_an_error() {
    let mut data = Vec::new();
    data.extend_from_slice(&(20i64).to_le_bytes());
    data.extend_from_slice(b"short");
    let s = KvStore::open(vec![Segment::new(0, data)], vec![KvIndex::new("k".to_string(), 0, 0, 20)]);
    assert!(matches!(s.get("k".to_string()), Err(KvsError::NoValueOfSize)));
    let t = KvStore::open(vec![Segment::new(0, vec![1, 2, 3])], vec![KvIndex::new("k".to_string(), 0, 0, 3)]);
    assert!(matches!(t.get("k".to_string()), Err(KvsError::NoValueOfSize)));
}

#[test]
fn remove_on_bad_entries_reports_errors() {
    let mut s = KvStore::open(Vec::new(), vec![KvIndex::new("k".to_string(), 4, 0, 3)]);
    assert!(matches!(s.remove("k".to_string()), Err(KvsError::OtherError)));
    let mut t = KvStore::open(vec![Segment::new(0, vec![1])], vec![KvIndex::new("k".to_string(), 0, 0, 3)]);
    assert!(matches!(t.remove("k".to_string()), Err(KvsError::NoValueOfSize)));
}

#[test]
fn compaction_stops_on_unreadable_entry() {
    let mut s = KvStore::open(
        vec![Segment::new(0, vec![1, 2]), Segment::new(1, Vec::new())],
        vec![KvIndex::new("k".to_string(), 0, 0, 3)],
    );
    assert!(matches!(s.compaction(), Err(KvsError::NoValueOfSize)));
    assert_eq!(s.segment(0), Some(vec![1, 2]));
}

#[test]
fn set_refused_when_ids_run_out() {
    let mut s = KvStore::open_with_threshold(vec![Segment::new(u64::MAX, Vec::new())], Vec::new(), 0);
    assert!(matches!(s.set("k".to_string(), record("k", "v")), Err(KvsError::OtherError)));
    assert_eq!(s.segment(u64::MAX), Some(Vec::new()));
}

#[test]
fn engine_trait_round_trip() {
    let mut s = fresh();
    KvsEngine::set(&mut s, "k".to_string(), record("k", "v")).unwrap();
    let got = KvsEngine::get(&mut s, "k".to_string()).unwrap().unwrap();
    assert_eq!(value_of(&got), "v");
    KvsEngine::remove(&mut s, "k".to_string()).unwrap();
    assert_eq!(KvsEngine::get(&mut s, "k".to_string()).unwrap(), None);
}

#[test]
fn constructors_keep_fields() {
    let r = KvRecord::new("k".to_string(), "v".to_string());
    assert_eq!(r.key, "k");
    assert_eq!(r.value, "v");
    let e = KvIndex::new("k".to_string(), 1, 2, 3);
    assert_eq!((e.file_number, e.record_offset, e.record_length), (1, 2, 3));
    let m = KvMessage::Get("k".to_string());
    assert!(matches!(m, KvMessage::Get(_)));
    assert_eq!(KvsStorageEngine::KvsEngine, KvsStorageEngine::KvsEngine);
}

#[test]
fn empty_payload_is_refused() {
    let mut s = fresh();
    assert!(matches!(s.set("k".to_string(), Vec::new()), Err(KvsError::OtherError)));
    assert_eq!(s.segment(0), Some(Vec::new()));
    assert!(s.sync_index().is_empty());
    assert!(KvsEngine::set(&mut s, "k".to_string(), Vec::new()).is_err());
}

#[test]
fn engine_trait_set_keeps_other_keys() {
    let mut s = KvStore::open_with_threshold(Vec::new(), Vec::new(), 30);
    KvsEngine::set(&mut s, "a".to_string(), record("a", "1")).unwrap();
    KvsEngine::set(&mut s, "b".to_string(), record("b", "2")).unwrap();
    KvsEngine::set(&mut s, "a".to_string(), record("a", "3")).unwrap();
    assert_eq!(value_of(&KvsEngine::get(&mut s, "a".to_string()).unwrap().unwrap()), "3");
    assert_eq!(value_of(&KvsEngine::get(&mut s, "b".to_string()).unwrap().unwrap()), "2");
}

#[test]
fn compaction_lays_live_frames_out_in_index_order() {
    let mut s = KvStore::open_with_threshold(Vec::new(), Vec::new(), 100);
    let ra = record("a", "old");
    s.set("a".to_string(), ra).unwrap();
    let rb = record("b", "2");
    s.set("b".to_string(), rb.clone()).unwrap();
    let rc = record("c", "3");
    s.set("c".to_string(), rc.clone()).unwrap();
    let ra2 = record("a", "new");
    s.set("a".to_string(), ra2.clone()).unwrap();
    s.remove("c".to_string()).unwrap();
    assert_eq!(s.active_file_number(), 1);
    s.compaction().unwrap();
    // index order is a, b, c: a's live frame, then b's; c's dead frame is gone
    let mut expected = Vec::new();
    append_frame(&mut expected, &ra2);
    append_frame(&mut expected, &rb);
    assert_eq!(s.segment(0).unwrap(), expected);
    let idx = s.sync_index();
    assert_eq!(idx.len(), 2);
    let a = idx.iter().find(|e| e.key == "a").unwrap();
    let b = idx.iter().find(|e| e.key == "b").unwrap();
    assert_eq!((a.file_number, a.record_offset, a.record_length), (0, 0, ra2.len() as u64));
    assert_eq!((b.file_number, b.record_offset, b.record_length), (0, 8 + ra2.len() as u64, rb.len() as u64));
    assert!(idx.iter().all(|e| e.key != "c"));
    // compacting again succeeds and leaves everything as it is
    let segs = s.segment(0).unwrap();
    s.compaction().unwrap();
    assert_eq!(s.segment(0).unwrap(), segs);
    assert_eq!(s.sync_index().len(), 2);
}

#[test]
fn segment_names_parse_to_ids() {
    assert_eq!(segment_id_of(b"file_0.bdd"), Some(0));
    assert_eq!(segment_id_of(b"file_42.bdd"), Some(42));
    assert_eq!(segment_id_of(b"file_007.bdd"), Some(7));
    assert_eq!(segment_id_of(b"file_18446744073709551615.bdd"), Some(u64::MAX));
    assert_eq!(segment_id_of(b"file_18446744073709551616.bdd"), None);
    assert_eq!(segment_id_of(b"file_.bdd"), None);
    assert_eq!(segment_id_of(b"file_1a.bdd"), None);
    assert_eq!(segment_id_of(b"file_3.new"), None);
    assert_eq!(segment_id_of(b"kvindex.idx"), None);
    assert_eq!(segment_id_of(b"log_3.bdd"), None);
}

#[test]
fn compaction_spans_stay_disjoint_after_mixed_work() {
    let mut s = KvStore::open_with_threshold(Vec::new(), Vec::new(), 40);
    for (k, v) in [("a", "1"), ("b", "2"), ("a", "3"), ("c", "4"), ("b", "5")] {
        s.set(k.to_string(), record(k, v)).unwrap();
    }
    s.remove("c".to_string()).unwrap();
    s.compaction().unwrap();
    let idx = s.sync_index();
    for (i, x) in idx.iter().enumerate() {
        for y in idx.iter().skip(i + 1) {
            if x.file_number == y.file_number {
                assert!(
                    x.record_offset + 8 + x.record_length <= y.record_offset
                        || y.record_offset + 8 + y.record_length <= x.record_offset
                );
            }
        }
    }
}

#[test]
fn index_checkpoint_is_in_key_order() {
    let mut s = fresh();
    for k in ["pear", "apple", "fig", "apricot", "b", "fig"] {
        s.set(k.to_string(), record(k, "v")).unwrap();
    }
    let keys: Vec<String> = s.sync_index().into_iter().map(|e| e.key).collect();
    assert_eq!(keys, vec!["apple", "apricot", "b", "fig", "pear"]);
}
