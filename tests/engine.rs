use kvs::codec::{encode_entry, scan_frames, Entry};
use kvs::error::MyErr;
use kvs::store::{
    LoadedRecord, LoadedSegment, LogState, COMPACTED_ID, COMPACT_THRESHOLD, SEGMENT_SIZE,
};
use std::collections::BTreeMap;

/// Segment files held in memory, keyed by id.
struct Disk {
    segs: BTreeMap<u32, Vec<u8>>,
}

fn open(disk: &mut Disk) -> LogState {
    let mut loaded = Vec::new();
    for (id, bytes) in disk.segs.iter() {
        let mut records = Vec::new();
        for f in scan_frames(bytes) {
            let start = f.offset as usize;
            let payload = &bytes[start..start + f.len as usize];
            let v: serde_json::Value = serde_json::from_slice(payload).unwrap();
            records.push(LoadedRecord {
                offset: f.offset,
                len: f.len,
                key: v["key"].as_str().unwrap().to_string(),
                val: v["val"].as_str().unwrap().to_string(),
                is_del: v["is_del"].as_bool().unwrap(),
            });
        }
        loaded.push(LoadedSegment { id: *id, records });
    }
    let st = LogState::recover(&loaded).unwrap();
    disk.segs.insert(st.active_id(), Vec::new());
    st
}

fn fresh() -> (LogState, Disk) {
    let mut disk = Disk { segs: BTreeMap::new() };
    let st = open(&mut disk);
    (st, disk)
}

fn after_append(st: &mut LogState, disk: &mut Disk, rotate: bool) {
    if rotate {
        let id = st.rotate().unwrap();
        disk.segs.insert(id, Vec::new());
    }
}

fn set(st: &mut LogState, disk: &mut Disk, k: &str, v: &str) {
    let bytes = encode_entry(&Entry::put(k.to_string(), v.to_string())).unwrap();
    let len = (bytes.len() - 4) as u32;
    disk.segs.get_mut(&st.active_id()).unwrap().extend_from_slice(&bytes);
    let rotate = st.commit_set(k.to_string(), v, len).unwrap();
    after_append(st, disk, rotate);
}

fn remove(st: &mut LogState, disk: &mut Disk, k: &str) -> Result<(), MyErr> {
    let key = k.to_string();
    st.check_remove(&key)?;
    let bytes = encode_entry(&Entry::del(key.clone())).unwrap();
    let len = (bytes.len() - 4) as u32;
    disk.segs.get_mut(&st.active_id()).unwrap().extend_from_slice(&bytes);
    let rotate = st.commit_remove(&key, len)?;
    after_append(st, disk, rotate);
    Ok(())
}

fn get(st: &LogState, disk: &Disk, k: &str) -> Option<String> {
    st.lookup(&k.to_string()).map(|ix| {
        let seg = &disk.segs[&ix.file];
        let start = ix.offset as usize;
        let payload = &seg[start..start + ix.len as usize];
        let v: serde_json::Value = serde_json::from_slice(payload).unwrap();
        assert_eq!(v["key"].as_str().unwrap(), k);
        v["val"].as_str().unwrap().to_string()
    })
}

#[test]
fn overwrite_returns_latest() {
    let (mut st, mut disk) = fresh();
    set(&mut st, &mut disk, "a", "1");
    set(&mut st, &mut disk, "a", "2");
    assert_eq!(get(&st, &disk, "a"), Some("2".to_string()));
    // the first put is now reclaimable: its 36-byte payload and its prefix
    assert_eq!(st.uncompacted(), 40);
}

#[test]
fn remove_then_get_and_remove_again() {
    let (mut st, mut disk) = fresh();
    set(&mut st, &mut disk, "k", "v");
    assert_eq!(remove(&mut st, &mut disk, "k"), Ok(()));
    assert_eq!(get(&st, &disk, "k"), None);
    assert_eq!(remove(&mut st, &mut disk, "k"), Err(MyErr::KeyNotFound));
}

#[test]
fn remove_absent_key_fails() {
    let (mut st, mut disk) = fresh();
    assert_eq!(st.check_remove(&"nope".to_string()), Err(MyErr::KeyNotFound));
    assert_eq!(st.commit_remove(&"nope".to_string(), 10), Err(MyErr::KeyNotFound));
    assert_eq!(remove(&mut st, &mut disk, "nope"), Err(MyErr::KeyNotFound));
}

#[test]
fn restart_keeps_two_thousand_keys() {
    let (mut st, mut disk) = fresh();
    let val: String = std::iter::repeat('x').take(1024).collect();
    for i in 0..2000 {
        set(&mut st, &mut disk, &format!("key{}", i), &format!("{}{}", val, i));
    }
    assert!(disk.segs.len() > 1);
    let st2 = open(&mut disk);
    for i in 0..2000 {
        assert_eq!(get(&st2, &disk, &format!("key{}", i)), Some(format!("{}{}", val, i)));
    }
}

#[test]
fn reopen_after_mixed_operations() {
    let (mut st, mut disk) = fresh();
    set(&mut st, &mut disk, "a", "1");
    set(&mut st, &mut disk, "b", "2");
    remove(&mut st, &mut disk, "a").unwrap();
    set(&mut st, &mut disk, "c", "3");
    set(&mut st, &mut disk, "b", "4");
    let st2 = open(&mut disk);
    assert_eq!(get(&st2, &disk, "a"), None);
    assert_eq!(get(&st2, &disk, "b"), Some("4".to_string()));
    assert_eq!(get(&st2, &disk, "c"), Some("3".to_string()));
    assert_eq!(st2.uncompacted(), st.uncompacted());
}

#[test]
fn eight_clients_in_turn() {
    let (mut st, mut disk) = fresh();
    for id in 0..8 {
        let k = format!("key-prefix-is-long {}", id);
        set(&mut st, &mut disk, &k, "1");
        set(&mut st, &mut disk, &k, "2");
        assert_eq!(get(&st, &disk, &k), Some("2".to_string()));
        remove(&mut st, &mut disk, &k).unwrap();
        assert_eq!(get(&st, &disk, &k), None);
        set(&mut st, &mut disk, &k, "3");
        for _ in 0..10 {
            assert_eq!(get(&st, &disk, &k), Some("3".to_string()));
        }
    }
    for id in 0..8 {
        assert_eq!(get(&st, &disk, &format!("key-prefix-is-long {}", id)), Some("3".to_string()));
    }
}

#[test]
fn truncated_tail_is_dropped_on_reopen() {
    let (mut st, mut disk) = fresh();
    set(&mut st, &mut disk, "a", "1");
    set(&mut st, &mut disk, "b", "2");
    let id = st.active_id();
    let seg = disk.segs.get_mut(&id).unwrap();
    let cut = seg.len() - 5;
    seg.truncate(cut);
    let st2 = open(&mut disk);
    assert_eq!(get(&st2, &disk, "a"), Some("1".to_string()));
    assert_eq!(get(&st2, &disk, "b"), None);
}

#[test]
fn writer_rotates_at_segment_size() {
    let (mut st, mut disk) = fresh();
    let first = st.active_id();
    assert_eq!(first, 2);
    let big: String = std::iter::repeat('y').take(600 * 1024).collect();
    set(&mut st, &mut disk, "a", &big);
    assert_eq!(st.active_id(), first);
    set(&mut st, &mut disk, "b", &big);
    assert_eq!(st.active_id(), first + 1);
    assert_eq!(st.active_len(), 0);
    assert_eq!(st.segment_ids(), vec![first, first + 1]);
    assert!(disk.segs[&first].len() as u64 >= SEGMENT_SIZE);
}

#[test]
fn recover_rejects_unordered_ids() {
    let segs = vec![
        LoadedSegment { id: 3, records: Vec::new() },
        LoadedSegment { id: 2, records: Vec::new() },
    ];
    assert!(matches!(LogState::recover(&segs), Err(MyErr::CorruptRecord)));
    let zero = vec![LoadedSegment { id: 0, records: Vec::new() }];
    assert!(matches!(LogState::recover(&zero), Err(MyErr::CorruptRecord)));
    let last = vec![LoadedSegment { id: u32::MAX, records: Vec::new() }];
    assert!(matches!(LogState::recover(&last), Err(MyErr::Exhausted)));
}

fn compact(st: &mut LogState, disk: &mut Disk) -> bool {
    let sources = match st.compaction_sources() {
        Some(s) => s,
        None => return false,
    };
    let mut loaded = Vec::new();
    for id in sources.iter() {
        let bytes = &disk.segs[id];
        let mut records = Vec::new();
        for f in scan_frames(bytes) {
            let start = f.offset as usize;
            let v: serde_json::Value =
                serde_json::from_slice(&bytes[start..start + f.len as usize]).unwrap();
            records.push(LoadedRecord {
                offset: f.offset,
                len: f.len,
                key: v["key"].as_str().unwrap().to_string(),
                val: v["val"].as_str().unwrap().to_string(),
                is_del: v["is_del"].as_bool().unwrap(),
            });
        }
        loaded.push(LoadedSegment { id: *id, records });
    }
    let plan = st.plan_compaction(&loaded).unwrap();
    let mut out = Vec::new();
    for k in plan.kept.iter() {
        let src = &disk.segs[&k.file];
        let start = k.offset as usize - 4;
        assert_eq!(out.len() as u64 + 4, k.new_offset);
        out.extend_from_slice(&src[start..start + 4 + k.len as usize]);
    }
    st.commit_compaction(&plan).unwrap();
    for id in sources.iter() {
        disk.segs.remove(id);
    }
    disk.segs.insert(COMPACTED_ID, out);
    true
}

#[test]
fn compaction_keeps_live_values() {
    let (mut st, mut disk) = fresh();
    let big: String = std::iter::repeat('z').take(100 * 1024).collect();
    for round in 0..40 {
        for k in 0..4 {
            set(&mut st, &mut disk, &format!("k{}", k), &format!("{}{}", big, round));
        }
    }
    set(&mut st, &mut disk, "small", "s");
    remove(&mut st, &mut disk, "k3").unwrap();
    assert!(st.uncompacted() >= COMPACT_THRESHOLD);
    let before = disk.segs.values().map(|s| s.len()).sum::<usize>();
    let mut ticks = 0;
    while compact(&mut st, &mut disk) && ticks < 100 {
        ticks += 1;
        for k in 0..3 {
            assert_eq!(get(&st, &disk, &format!("k{}", k)), Some(format!("{}{}", big, 39)));
        }
        assert_eq!(get(&st, &disk, "k3"), None);
        assert_eq!(get(&st, &disk, "small"), Some("s".to_string()));
    }
    assert!(ticks > 0);
    let after = disk.segs.values().map(|s| s.len()).sum::<usize>();
    assert!(after < before);
    assert_eq!(st.segment_ids()[0], COMPACTED_ID);
    let st2 = open(&mut disk);
    for k in 0..3 {
        assert_eq!(get(&st2, &disk, &format!("k{}", k)), Some(format!("{}{}", big, 39)));
    }
    assert_eq!(get(&st2, &disk, "k3"), None);
}

#[test]
fn stale_compaction_is_refused() {
    let (mut st, _disk) = fresh();
    let plan = st.plan_compaction(&Vec::new()).unwrap();
    assert!(plan.kept.is_empty());
    assert_eq!(st.commit_compaction(&plan), Err(MyErr::StaleCompaction));
    assert_eq!(st.compaction_sources(), None);
}

#[test]
fn churn_on_one_key_stays_bounded() {
    let (mut st, mut disk) = fresh();
    let big: String = std::iter::repeat('c').take(100 * 1024).collect();
    let mut written: u64 = 0;
    let mut round = 0;
    while written <= 10 * SEGMENT_SIZE + SEGMENT_SIZE {
        set(&mut st, &mut disk, "hot", &format!("{}{}", big, round));
        written += big.len() as u64;
        round += 1;
        compact(&mut st, &mut disk);
    }
    let size = disk.segs.values().map(|s| s.len() as u64).sum::<u64>();
    assert!(size <= 5 * SEGMENT_SIZE, "directory holds {} bytes", size);
    assert_eq!(get(&st, &disk, "hot"), Some(format!("{}{}", big, round - 1)));
}

#[test]
fn observer_never_sees_torn_values() {
    let (mut st, mut disk) = fresh();
    let val = |k: usize, i: usize| format!("{}-{}-{}", k, i, "v".repeat(10 * 1024));
    for k in 0..100 {
        set(&mut st, &mut disk, &format!("key{}", k), &val(k, 0));
    }
    for i in 1..20 {
        for k in 0..100 {
            set(&mut st, &mut disk, &format!("key{}", k), &val(k, i));
            compact(&mut st, &mut disk);
            for o in 0..4 {
                let got = get(&st, &disk, &format!("key{}", o)).expect("key vanished");
                let seen = if o <= k { i } else { i - 1 };
                assert_eq!(got, val(o, seen));
            }
        }
    }
    for k in 0..100 {
        assert_eq!(get(&st, &disk, &format!("key{}", k)), Some(val(k, 19)));
    }
}

#[test]
fn plan_missing_a_record_is_refused() {
    let (mut st, mut disk) = fresh();
    let big: String = std::iter::repeat('m').take(300 * 1024).collect();
    set(&mut st, &mut disk, "stay", "1");
    for round in 0..12 {
        set(&mut st, &mut disk, &format!("k{}", round % 3), &big);
    }
    let sources = st.compaction_sources().expect("compaction due");
    let mut loaded = Vec::new();
    for id in sources.iter() {
        let bytes = &disk.segs[id];
        let mut records = Vec::new();
        for f in scan_frames(bytes) {
            let start = f.offset as usize;
            let v: serde_json::Value =
                serde_json::from_slice(&bytes[start..start + f.len as usize]).unwrap();
            records.push(LoadedRecord {
                offset: f.offset,
                len: f.len,
                key: v["key"].as_str().unwrap().to_string(),
                val: String::new(),
                is_del: v["is_del"].as_bool().unwrap(),
            });
        }
        loaded.push(LoadedSegment { id: *id, records });
    }
    let mut plan = st.plan_compaction(&loaded).unwrap();
    assert!(st.compaction_valid(&plan));
    let pos = plan.kept.iter().position(|k| !k.is_del).expect("a live put in the sources");
    plan.kept.remove(pos);
    let before = st.segment_ids();
    assert!(!st.compaction_valid(&plan));
    assert_eq!(st.commit_compaction(&plan), Err(MyErr::StaleCompaction));
    assert_eq!(st.segment_ids(), before);
    assert_eq!(get(&st, &disk, "stay"), Some("1".to_string()));
}
