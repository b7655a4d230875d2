use kvs::error::KvsError;
use kvs::record::{check_record, decode_record, encode_record, record_of_fields, value_of_record, RecordKind};
use kvs::store::{KvStore, Segment, TRIGGER_COMPACT_SIZE};

/// A data directory held in memory, driven through the library the way the
/// server drives real files.
struct MemDir {
    files: Vec<(u64, Vec<u8>)>,
    store: KvStore,
    compactions: usize,
}

impl MemDir {
    fn open(files: Vec<(u64, Vec<u8>)>) -> Result<MemDir, KvsError> {
        let mut files = files;
        files.sort_by_key(|f| f.0);
        let segments: Vec<Segment> = files
            .iter()
            .map(|(id, bytes)| Segment { file_id: *id, bytes: bytes.clone() })
            .collect();
        let store = KvStore::recover(&segments)?;
        let active = store.active_file_id();
        if !files.iter().any(|f| f.0 == active) {
            files.push((active, Vec::new()));
        }
        Ok(MemDir { files, store, compactions: 0 })
    }

    fn fresh() -> MemDir {
        MemDir::open(Vec::new()).unwrap()
    }

    fn file(&self, id: u64) -> &Vec<u8> {
        &self.files.iter().find(|f| f.0 == id).unwrap().1
    }

    fn append(&mut self, bytes: &[u8]) {
        let active = self.store.active_file_id();
        let f = self.files.iter_mut().find(|f| f.0 == active).unwrap();
        f.1.extend_from_slice(bytes);
    }

    fn set(&mut self, key: &str, value: &str) {
        let rec = encode_record(RecordKind::Put, 7, key, value).unwrap();
        let checked = check_record(&rec).unwrap();
        self.append(&rec);
        if self.store.apply_set(checked).unwrap() {
            self.compact();
        }
    }

    fn get(&self, key: &str) -> Option<String> {
        self.store.lookup(key).map(|e| {
            let f = self.file(e.file_id);
            let start = e.value_pos as usize;
            let end = start + e.value_sz as usize;
            self.store.read_value(key, &f[start..end]).unwrap().unwrap()
        })
    }

    fn remove(&mut self, key: &str) -> Result<(), KvsError> {
        let rec = self.store.remove_record(key, 7)?;
        let checked = check_record(&rec)?;
        self.append(&rec);
        if self.store.apply_remove(checked)? {
            self.compact();
        }
        Ok(())
    }

    fn compact(&mut self) {
        let plan = self.store.compaction_plan().unwrap();
        let mut target = Vec::new();
        for c in plan.copies.iter() {
            let f = self.file(c.file_id);
            let start = c.value_pos as usize;
            target.extend_from_slice(&f[start..start + c.value_sz as usize]);
        }
        self.files.retain(|f| !plan.obsolete.contains(&f.0));
        self.files.push((plan.target_id, target));
        self.files.push((plan.active_id, Vec::new()));
        self.store.finish_compaction(&plan);
        self.compactions += 1;
    }

    fn reopen(self) -> MemDir {
        MemDir::open(self.files).unwrap()
    }
}

#[test]
fn scenario_set_get_remove() {
    let mut db = MemDir::fresh();
    assert_eq!(db.store.file_ids(), vec![1]);
    db.set("a", "1");
    assert_eq!(db.get("a"), Some("1".to_string()));
    db.remove("a").unwrap();
    assert_eq!(db.get("a"), None);
    assert!(matches!(db.remove("a"), Err(KvsError::KeyNotFound { key }) if key == "a"));
}

#[test]
fn scenario_overwrite_survives_reopen() {
    let mut db = MemDir::fresh();
    db.set("k", "v1");
    db.set("k", "v2");
    let db = db.reopen();
    assert_eq!(db.get("k"), Some("v2".to_string()));
}

#[test]
fn scenario_overwrite_many_keys_compacts() {
    let mut db = MemDir::fresh();
    let big = "x".repeat(100);
    for i in 0..2000 {
        db.set(&format!("key{}", i), &big);
    }
    for i in 0..2000 {
        db.set(&format!("key{}", i), "y");
    }
    assert!(db.compactions >= 1);
    for i in 0..2000 {
        assert_eq!(db.get(&format!("key{}", i)), Some("y".to_string()));
    }
    assert!(db.files.len() <= 2);
    let db = db.reopen();
    assert_eq!(db.get("key1999"), Some("y".to_string()));
}

#[test]
fn get_of_unset_and_removed_keys_is_none() {
    let mut db = MemDir::fresh();
    assert_eq!(db.get("never"), None);
    db.set("gone", "x");
    db.set("kept", "y");
    db.remove("gone").unwrap();
    assert_eq!(db.get("gone"), None);
    assert_eq!(db.get("kept"), Some("y".to_string()));
}

#[test]
fn last_set_wins_across_operations() {
    let mut db = MemDir::fresh();
    db.set("a", "1");
    db.set("b", "2");
    db.set("a", "3");
    db.remove("b").unwrap();
    db.set("b", "4");
    assert_eq!(db.get("a"), Some("3".to_string()));
    assert_eq!(db.get("b"), Some("4".to_string()));
}

#[test]
fn reopen_rebuilds_identical_index() {
    let mut db = MemDir::fresh();
    for i in 0..50 {
        db.set(&format!("k{}", i % 7), &format!("v{}", i));
        if i % 5 == 0 {
            let _ = db.remove(&format!("k{}", i % 3));
        }
    }
    let before: Vec<_> = (0..7).map(|i| db.store.lookup(&format!("k{}", i))).collect();
    let uncompacted = db.store.uncompacted_size();
    let db = db.reopen();
    let after: Vec<_> = (0..7).map(|i| db.store.lookup(&format!("k{}", i))).collect();
    assert_eq!(before, after);
    assert_eq!(db.store.uncompacted_size(), uncompacted);
}

#[test]
fn compaction_keeps_values_and_leaves_two_segments() {
    let mut db = MemDir::fresh();
    db.set("a", "alpha");
    db.set("b", "beta");
    db.set("a", "again");
    db.remove("b").unwrap();
    db.set("c", "gamma");
    db.compact();
    assert_eq!(db.store.file_ids(), vec![2, 3]);
    assert_eq!(db.files.len(), 2);
    assert_eq!(db.store.uncompacted_size(), 0);
    assert_eq!(db.store.active_file_id(), 3);
    assert_eq!(db.get("a"), Some("again".to_string()));
    assert_eq!(db.get("b"), None);
    assert_eq!(db.get("c"), Some("gamma".to_string()));
    db.compact();
    assert_eq!(db.store.file_ids(), vec![4, 5]);
    assert_eq!(db.get("a"), Some("again".to_string()));
    assert_eq!(db.get("c"), Some("gamma".to_string()));
    let db = db.reopen();
    assert_eq!(db.get("a"), Some("again".to_string()));
    assert_eq!(db.get("c"), Some("gamma".to_string()));
}

#[test]
fn compacted_entries_are_packed_in_order() {
    let mut db = MemDir::fresh();
    db.set("a", "1");
    db.set("b", "22");
    let plan = db.store.compaction_plan().unwrap();
    assert_eq!(plan.target_id, 2);
    assert_eq!(plan.active_id, 3);
    assert_eq!(plan.obsolete, vec![1]);
    let total: u64 = plan.copies.iter().map(|c| c.value_sz).sum();
    db.compact();
    let ea = db.store.lookup("a").unwrap();
    let eb = db.store.lookup("b").unwrap();
    assert_eq!(ea.file_id, 2);
    assert_eq!(eb.file_id, 2);
    assert_eq!(ea.value_sz + eb.value_sz, total);
    assert!(ea.value_pos == 0 || eb.value_pos == 0);
    assert_eq!(db.file(2).len() as u64, total);
}

#[test]
fn set_twice_same_as_once() {
    let mut once = MemDir::fresh();
    once.set("k", "v");
    let mut twice = MemDir::fresh();
    twice.set("k", "v");
    twice.set("k", "v");
    assert_eq!(once.get("k"), twice.get("k"));
    assert_eq!(twice.get("k"), Some("v".to_string()));
    assert_eq!(once.get("other"), twice.get("other"));
}

#[test]
fn remove_twice_fails_the_second_time() {
    let mut db = MemDir::fresh();
    db.set("k", "v");
    let len = db.file(1).len();
    assert!(db.remove("k").is_ok());
    let after_first = db.file(1).len();
    assert!(after_first > len);
    assert!(matches!(db.remove("k"), Err(KvsError::KeyNotFound { .. })));
    assert_eq!(db.file(1).len(), after_first);
}

#[test]
fn empty_value_round_trips() {
    let mut db = MemDir::fresh();
    db.set("empty", "");
    assert_eq!(db.get("empty"), Some(String::new()));
    let db = db.reopen();
    assert_eq!(db.get("empty"), Some(String::new()));
}

#[test]
fn large_value_round_trips() {
    let mut db = MemDir::fresh();
    let big: String = (0..(1usize << 20) + 5).map(|i| (b'a' + (i % 26) as u8) as char).collect();
    db.set("big", &big);
    assert_eq!(db.get("big"), Some(big.clone()));
    let db = db.reopen();
    assert_eq!(db.get("big"), Some(big));
}

#[test]
fn repeated_sets_trigger_compaction() {
    let mut db = MemDir::fresh();
    for i in 0..1000 {
        db.set("same", &format!("value{}", i));
    }
    assert!(db.compactions >= 1);
    assert_eq!(db.get("same"), Some("value999".to_string()));
    assert!(db.store.uncompacted_size() <= TRIGGER_COMPACT_SIZE);
}

#[test]
fn uncompacted_size_counts_dead_records() {
    let mut db = MemDir::fresh();
    db.set("k", "v");
    let first = db.store.lookup("k").unwrap().value_sz;
    assert_eq!(db.store.uncompacted_size(), 0);
    db.set("k", "w");
    assert_eq!(db.store.uncompacted_size(), first);
    let second = db.store.lookup("k").unwrap().value_sz;
    db.remove("k").unwrap();
    assert_eq!(db.store.uncompacted_size(), first + second);
}

#[test]
fn apply_set_places_record_at_end_of_active_segment() {
    let mut store = KvStore::new();
    let a = encode_record(RecordKind::Put, 1, "a", "1").unwrap();
    let b = encode_record(RecordKind::Put, 2, "b", "2").unwrap();
    assert!(!store.apply_set(check_record(&a).unwrap()).unwrap());
    assert!(!store.apply_set(check_record(&b).unwrap()).unwrap());
    let e = store.lookup("b").unwrap();
    assert_eq!((e.file_id, e.value_pos, e.value_sz), (1, a.len() as u64, b.len() as u64));
    assert_eq!(store.active_len(), (a.len() + b.len()) as u64);
    assert_eq!(store.read_value("b", &b).unwrap(), Some("2".to_string()));
    assert_eq!(store.read_value("zzz", b"").unwrap(), None);
    assert!(matches!(store.read_value("b", &a), Err(KvsError::Serde { .. })));
}

#[test]
fn apply_rejects_wrong_kind_and_unbound_key() {
    let mut store = KvStore::new();
    let rm = encode_record(RecordKind::Remove, 1, "a", "").unwrap();
    assert!(matches!(store.apply_set(check_record(&rm).unwrap()), Err(KvsError::Other { .. })));
    assert!(matches!(store.apply_remove(check_record(&rm).unwrap()), Err(KvsError::KeyNotFound { .. })));
    assert_eq!(store.active_len(), 0);
    let put = encode_record(RecordKind::Put, 1, "a", "x").unwrap();
    assert!(matches!(store.apply_remove(check_record(&put).unwrap()), Err(KvsError::Other { .. })));
    assert!(matches!(check_record(b"{}"), Err(KvsError::Serde { .. })));
}

#[test]
fn trailing_partial_record_is_dropped() {
    let mut db = MemDir::fresh();
    db.set("a", "1");
    let mut files = db.files.clone();
    files[0].1.extend_from_slice(b"{\"command\":\"Set\",\"tst");
    let db = MemDir::open(files).unwrap();
    assert_eq!(db.get("a"), Some("1".to_string()));
}

#[test]
fn corrupt_record_aborts_open() {
    let mut db = MemDir::fresh();
    db.set("a", "1");
    let mut files = db.files.clone();
    files[0].1.extend_from_slice(b"not json at all");
    db.set("b", "2");
    assert!(matches!(MemDir::open(files), Err(KvsError::Serde { .. })));
    let mut other = db.files.clone();
    other[0].1.extend_from_slice(b"{\"command\":\"Jump\",\"tstamp\":1,\"key\":\"a\",\"value\":\"\"}");
    assert!(matches!(MemDir::open(other), Err(KvsError::Serde { .. })));
}

#[test]
fn replay_spans_segments_in_id_order() {
    let put = |k: &str, v: &str| encode_record(RecordKind::Put, 1, k, v).unwrap();
    let rm = |k: &str| encode_record(RecordKind::Remove, 1, k, "").unwrap();
    let mut seg1 = put("a", "old");
    seg1.extend(put("b", "b1"));
    let mut seg2 = put("a", "new");
    seg2.extend(rm("b"));
    let db = MemDir::open(vec![(2, seg2), (1, seg1)]).unwrap();
    assert_eq!(db.store.file_ids(), vec![1, 2]);
    assert_eq!(db.store.active_file_id(), 2);
    assert_eq!(db.get("a"), Some("new".to_string()));
    assert_eq!(db.get("b"), None);
    assert!(db.store.uncompacted_size() > 0);
}

#[test]
fn record_bytes_are_json_objects() {
    let rec = encode_record(RecordKind::Put, 1234, "k\"ey", "v").unwrap();
    assert_eq!(
        String::from_utf8(rec.clone()).unwrap(),
        "{\"command\":\"Set\",\"tstamp\":1234,\"key\":\"k\\\"ey\",\"value\":\"v\"}"
    );
    let back = decode_record(&rec).unwrap();
    assert_eq!(back.kind, RecordKind::Put);
    assert_eq!(back.key, "k\"ey");
    assert_eq!(back.value, "v");
    let rm = encode_record(RecordKind::Remove, 0, "k", "").unwrap();
    assert_eq!(
        String::from_utf8(rm).unwrap(),
        "{\"command\":\"Remove\",\"tstamp\":0,\"key\":\"k\",\"value\":\"\"}"
    );
}

#[test]
fn value_of_record_checks_kind_and_key() {
    let rec = encode_record(RecordKind::Put, 1, "k", "v").unwrap();
    assert_eq!(value_of_record("k", &rec).unwrap(), "v");
    assert!(matches!(value_of_record("other", &rec), Err(KvsError::Serde { .. })));
    let rm = encode_record(RecordKind::Remove, 1, "k", "").unwrap();
    assert!(matches!(value_of_record("k", &rm), Err(KvsError::Serde { .. })));
    assert!(matches!(decode_record(b"{\"key\":\"k\"}"), Err(KvsError::Serde { .. })));
}

#[test]
fn interleaved_clients_on_disjoint_keys() {
    let mut db = MemDir::fresh();
    for step in 0..1000 {
        for client in 0..4 {
            let key = format!("c{}-{}", client, step % 10);
            if step % 7 == 3 {
                let _ = db.remove(&key);
            } else {
                db.set(&key, &format!("{}:{}", client, step));
            }
        }
    }
    for client in 0..4 {
        for k in 0..10 {
            let key = format!("c{}-{}", client, k);
            let last = (0..1000).rev().find(|s| s % 10 == k).unwrap();
            let expected = if last % 7 == 3 { None } else { Some(format!("{}:{}", client, last)) };
            assert_eq!(db.get(&key), expected);
        }
    }
}

#[test]
fn racing_sets_leave_one_written_value() {
    let mut db = MemDir::fresh();
    let written = ["w0", "w1", "w2", "w3"];
    for round in 0..50 {
        for i in 0..4 {
            db.set("shared", written[(i + round) % 4]);
        }
    }
    let v = db.get("shared").unwrap();
    assert!(written.contains(&v.as_str()));
    assert_eq!(v, "w0");
}

#[test]
fn record_escapes_control_characters() {
    let rec = encode_record(RecordKind::Put, 5, "a\u{1}\u{1f}\n\t\r\u{8}\u{c}\\/", "é").unwrap();
    assert_eq!(
        String::from_utf8(rec.clone()).unwrap(),
        "{\"command\":\"Set\",\"tstamp\":5,\"key\":\"a\\u0001\\u001f\\n\\t\\r\\b\\f\\\\/\",\"value\":\"é\"}"
    );
    let back = decode_record(&rec).unwrap();
    assert_eq!(back.key, "a\u{1}\u{1f}\n\t\r\u{8}\u{c}\\/");
    assert_eq!(back.value, "é");
}

#[test]
fn record_without_timestamp_is_refused() {
    let doc = b"{\"command\":\"Set\",\"key\":\"k\",\"value\":\"v\"}";
    assert!(matches!(decode_record(doc), Err(KvsError::Serde { .. })));
    let mut db = MemDir::fresh();
    db.set("a", "1");
    let mut files = db.files.clone();
    files[0].1.extend_from_slice(doc);
    assert!(matches!(MemDir::open(files), Err(KvsError::Serde { .. })));
}

#[test]
fn record_fields_make_a_record() {
    let s = |t: &str| Some(t.to_string());
    let rec = record_of_fields(s("Remove"), s("k"), s(""), true).unwrap();
    assert_eq!(rec.kind, RecordKind::Remove);
    assert_eq!(rec.key, "k");
    assert!(matches!(record_of_fields(s("Set"), s("k"), s("v"), false), Err(KvsError::Serde { .. })));
    assert!(matches!(record_of_fields(s("Jump"), s("k"), s("v"), true), Err(KvsError::Serde { .. })));
    assert!(matches!(record_of_fields(s("Set"), None, s("v"), true), Err(KvsError::Serde { .. })));
}

#[test]
fn record_timestamp_must_be_an_integer() {
    let doc = b"{\"command\":\"Set\",\"tstamp\":\"soon\",\"key\":\"k\",\"value\":\"v\"}";
    assert!(matches!(decode_record(doc), Err(KvsError::Serde { .. })));
    let doc = b"{\"command\":\"Set\",\"tstamp\":-3,\"key\":\"k\",\"value\":\"v\"}";
    assert!(matches!(decode_record(doc), Err(KvsError::Serde { .. })));
    let doc = b"{\"command\":\"Set\",\"tstamp\":18446744073709551615,\"key\":\"k\",\"value\":\"v\"}";
    assert_eq!(decode_record(doc).unwrap().value, "v");
}
