use kvs::{
    build_index_from_reader, create_path, encode, key_not_found, sorted_file_idx_list, Append,
    CompactionPlan, ErrorKind, KeyDir, KvStore, KvsCommand, KvsError, LogPointer, Segment,
    ThreadPool, COMPACTION_THRESHOLD,
};
use std::collections::BTreeMap;

/// A directory in memory: the content of each file, by name.
struct Dir {
    files: BTreeMap<String, Vec<u8>>,
}

impl Dir {
    fn new() -> Dir {
        Dir { files: BTreeMap::new() }
    }

    fn segment(&self, generation: u64) -> &Vec<u8> {
        &self.files[&create_path(generation)]
    }

    fn size(&self) -> usize {
        self.files.values().map(|f| f.len()).sum()
    }

    fn read(&self, p: LogPointer) -> Vec<u8> {
        let file = self.segment(p.generation);
        file[p.offset as usize..(p.offset + p.length) as usize].to_vec()
    }
}

fn open(dir: &mut Dir) -> Result<KvStore, KvsError> {
    let names: Vec<String> = dir.files.keys().cloned().collect();
    let segments: Vec<Segment> = sorted_file_idx_list(&names)
        .into_iter()
        .map(|generation| Segment { generation, bytes: dir.segment(generation).clone() })
        .collect();
    let store = KvStore::open(&segments)?;
    dir.files.insert(create_path(store.active_generation()), Vec::new());
    Ok(store)
}

fn compact(store: &mut KvStore, dir: &mut Dir) -> Result<(), KvsError> {
    let plan: CompactionPlan = store.compact()?;
    let mut copy = Vec::new();
    for p in plan.copies.iter() {
        copy.extend_from_slice(&dir.read(*p));
    }
    dir.files.insert(create_path(plan.compact_generation), copy);
    dir.files.insert(create_path(plan.active_generation), Vec::new());
    store.finish_compaction()?;
    for generation in plan.stale.iter() {
        dir.files.remove(&create_path(*generation));
    }
    Ok(())
}

fn set(store: &mut KvStore, dir: &mut Dir, key: &str, value: &str) -> Result<(), KvsError> {
    let append = store.set(key.to_string(), value.to_string())?;
    let name = create_path(store.active_generation());
    dir.files.get_mut(&name).unwrap().extend_from_slice(append.bytes());
    if store.commit(append)? {
        compact(store, dir)?;
    }
    Ok(())
}

fn remove(store: &mut KvStore, dir: &mut Dir, key: &str) -> Result<(), KvsError> {
    let append = store.remove(key.to_string())?;
    let name = create_path(store.active_generation());
    dir.files.get_mut(&name).unwrap().extend_from_slice(append.bytes());
    if store.commit(append)? {
        compact(store, dir)?;
    }
    Ok(())
}

fn get(store: &KvStore, dir: &Dir, key: &str) -> Result<Option<String>, KvsError> {
    match store.get(key) {
        None => Ok(None),
        Some(p) => KvStore::read_value(key, &dir.read(p)).map(Some),
    }
}

fn record(command: &KvsCommand) -> Vec<u8> {
    encode(command).unwrap()
}

fn put(key: &str, value: &str) -> Vec<u8> {
    record(&KvsCommand::Put { key: key.to_string(), value: value.to_string() })
}

fn rm(key: &str) -> Vec<u8> {
    record(&KvsCommand::Rm { key: key.to_string() })
}

#[test]
fn set_then_get_gives_the_value() {
    let mut dir = Dir::new();
    let mut store = open(&mut dir).unwrap();
    set(&mut store, &mut dir, "k", "v1").unwrap();
    assert_eq!(get(&store, &dir, "k").unwrap(), Some("v1".to_string()));
}

#[test]
fn the_last_value_is_there_after_reopening() {
    let mut dir = Dir::new();
    let mut store = open(&mut dir).unwrap();
    set(&mut store, &mut dir, "k", "v1").unwrap();
    set(&mut store, &mut dir, "k", "v2").unwrap();
    drop(store);
    let store = open(&mut dir).unwrap();
    assert_eq!(get(&store, &dir, "k").unwrap(), Some("v2".to_string()));
}

#[test]
fn a_removed_key_is_gone_and_cannot_be_removed_again() {
    let mut dir = Dir::new();
    let mut store = open(&mut dir).unwrap();
    set(&mut store, &mut dir, "k", "v").unwrap();
    remove(&mut store, &mut dir, "k").unwrap();
    assert_eq!(get(&store, &dir, "k").unwrap(), None);
    let before = dir.size();
    let e = remove(&mut store, &mut dir, "k").unwrap_err();
    assert_eq!(e.kind, ErrorKind::KeyNotFound);
    assert_eq!(e.message(), "Key not found");
    assert_eq!(dir.size(), before);
}

#[test]
fn compaction_shrinks_the_directory_and_keeps_every_value() {
    let mut dir = Dir::new();
    let mut store = open(&mut dir).unwrap();
    let key = |i: u32| format!("key-{:012}", i);
    let first = "a".repeat(100);
    let second = "b".repeat(100);
    for i in 0..10_000 {
        assert_eq!(key(i).len(), 16);
        set(&mut store, &mut dir, &key(i), &first).unwrap();
    }
    for i in 0..10_000 {
        set(&mut store, &mut dir, &key(i), &second).unwrap();
    }
    compact(&mut store, &mut dir).unwrap();
    let expected = 10_000 * (29 + 16 + 100);
    let size = dir.size();
    assert!(size * 10 >= expected * 9 && size * 10 <= expected * 11, "size {}", size);
    assert_eq!(size, expected);
    assert_eq!(store.len(), 10_000);
    for i in 0..10_000 {
        assert_eq!(get(&store, &dir, &key(i)).unwrap(), Some(second.clone()));
    }
}

#[test]
fn a_record_cut_short_at_the_end_is_discarded() {
    let mut dir = Dir::new();
    let mut store = open(&mut dir).unwrap();
    set(&mut store, &mut dir, "a", "1").unwrap();
    set(&mut store, &mut dir, "b", "2").unwrap();
    set(&mut store, &mut dir, "a", "3").unwrap();
    let name = create_path(store.active_generation());
    drop(store);
    let file = dir.files.get_mut(&name).unwrap();
    file.truncate(file.len() - 3);
    let store = open(&mut dir).unwrap();
    assert_eq!(get(&store, &dir, "a").unwrap(), Some("1".to_string()));
    assert_eq!(get(&store, &dir, "b").unwrap(), Some("2".to_string()));
    assert_eq!(store.uncompacted(), 0);
}

#[test]
fn a_compacted_store_opens_with_an_empty_segment_before_the_active_one() {
    let mut dir = Dir::new();
    let mut store = open(&mut dir).unwrap();
    set(&mut store, &mut dir, "k", "v").unwrap();
    compact(&mut store, &mut dir).unwrap();
    drop(store);
    let store = open(&mut dir).unwrap();
    assert_eq!(get(&store, &dir, "k").unwrap(), Some("v".to_string()));
    assert_eq!(store.generations(), vec![1, 2, 3]);
}

#[test]
fn the_first_store_of_a_directory_writes_generation_zero() {
    let mut dir = Dir::new();
    let store = open(&mut dir).unwrap();
    assert_eq!(store.active_generation(), 0);
    assert_eq!(store.generations(), vec![0]);
    assert_eq!(store.position(), 0);
    assert_eq!(store.uncompacted(), 0);
    assert_eq!(store.len(), 0);
    assert_eq!(dir.files.keys().cloned().collect::<Vec<String>>(), vec!["0.log"]);
}

#[test]
fn each_open_starts_the_next_generation() {
    let mut dir = Dir::new();
    dir.files.insert("4.log".to_string(), put("a", "1"));
    dir.files.insert("17.log".to_string(), put("b", "2"));
    dir.files.insert("notes.txt".to_string(), b"no segment".to_vec());
    let store = open(&mut dir).unwrap();
    assert_eq!(store.generations(), vec![4, 17, 18]);
    assert_eq!(store.active_generation(), 18);
    assert_eq!(get(&store, &dir, "a").unwrap(), Some("1".to_string()));
    assert_eq!(get(&store, &dir, "b").unwrap(), Some("2".to_string()));
    assert!(dir.files.contains_key("notes.txt"));
}

#[test]
fn a_later_segment_wins_over_an_earlier_one() {
    let mut dir = Dir::new();
    dir.files.insert("2.log".to_string(), put("k", "new"));
    dir.files.insert("10.log".to_string(), put("k", "newest"));
    dir.files.insert("1.log".to_string(), put("k", "old"));
    let store = open(&mut dir).unwrap();
    assert_eq!(get(&store, &dir, "k").unwrap(), Some("newest".to_string()));
    assert_eq!(store.uncompacted(), (put("k", "old").len() + put("k", "new").len()) as u64);
}

#[test]
fn set_writes_one_record_and_moves_the_position() {
    let mut dir = Dir::new();
    let mut store = open(&mut dir).unwrap();
    let append = store.set("k".to_string(), "v".to_string()).unwrap();
    assert_eq!(append.bytes(), &put("k", "v"));
    assert_eq!(store.position(), 0);
    assert_eq!(store.get("k"), None);
    let len = append.bytes().len() as u64;
    assert_eq!(store.commit(append).unwrap(), false);
    assert_eq!(store.position(), len);
    assert_eq!(store.get("k"), Some(LogPointer { generation: 0, offset: 0, length: len }));
    let append = store.set("j".to_string(), "w".to_string()).unwrap();
    store.commit(append).unwrap();
    assert_eq!(store.get("j"), Some(LogPointer { generation: 0, offset: len, length: len }));
    assert_eq!(store.position(), 2 * len);
    assert_eq!(store.uncompacted(), 0);
}

#[test]
fn dead_bytes_are_counted() {
    let mut dir = Dir::new();
    let mut store = open(&mut dir).unwrap();
    let first = put("k", "v").len() as u64;
    let second = put("k", "longer").len() as u64;
    let tombstone = rm("k").len() as u64;
    set(&mut store, &mut dir, "k", "v").unwrap();
    assert_eq!(store.uncompacted(), 0);
    set(&mut store, &mut dir, "k", "longer").unwrap();
    assert_eq!(store.uncompacted(), first);
    remove(&mut store, &mut dir, "k").unwrap();
    assert_eq!(store.uncompacted(), first + second + tombstone);
    drop(store);
    let store = open(&mut dir).unwrap();
    assert_eq!(store.uncompacted(), first + second + tombstone);
    assert_eq!(store.len(), 0);
}

#[test]
fn compaction_starts_above_the_threshold_only() {
    assert_eq!(COMPACTION_THRESHOLD, 1024 * 1024);
    let mut dir = Dir::new();
    let mut store = open(&mut dir).unwrap();
    let value = "x".repeat(COMPACTION_THRESHOLD as usize / 2 - put("k", "").len());
    let len = put("k", &value).len() as u64;
    assert_eq!(2 * len, COMPACTION_THRESHOLD);
    for _ in 0..3 {
        let append = store.set("k".to_string(), value.clone()).unwrap();
        assert_eq!(store.commit(append).unwrap(), false);
    }
    assert_eq!(store.uncompacted(), COMPACTION_THRESHOLD);
    let append = store.set("k".to_string(), String::new()).unwrap();
    assert_eq!(store.commit(append).unwrap(), true);
    assert_eq!(store.uncompacted(), COMPACTION_THRESHOLD + len);
}

#[test]
fn a_set_above_the_threshold_compacts() {
    let mut dir = Dir::new();
    let mut store = open(&mut dir).unwrap();
    let value = "x".repeat(400_000);
    for _ in 0..4 {
        set(&mut store, &mut dir, "k", &value).unwrap();
    }
    assert_eq!(store.generations(), vec![1, 2]);
    assert_eq!(store.uncompacted(), 0);
    assert_eq!(dir.files.len(), 2);
    assert_eq!(dir.segment(1), &put("k", &value));
    assert!(dir.segment(2).is_empty());
    assert_eq!(get(&store, &dir, "k").unwrap(), Some(value));
}

#[test]
fn compaction_copies_the_live_records_in_the_order_of_the_keys() {
    let mut dir = Dir::new();
    let mut store = open(&mut dir).unwrap();
    set(&mut store, &mut dir, "b", "2").unwrap();
    set(&mut store, &mut dir, "a", "0").unwrap();
    set(&mut store, &mut dir, "c", "3").unwrap();
    set(&mut store, &mut dir, "a", "1").unwrap();
    remove(&mut store, &mut dir, "c").unwrap();
    let plan = store.compact().unwrap();
    assert_eq!(plan.compact_generation, 1);
    assert_eq!(plan.active_generation, 2);
    assert_eq!(plan.stale, vec![0]);
    assert_eq!(plan.copies.len(), 2);
    assert_eq!(dir.read(plan.copies[0]), put("a", "1"));
    assert_eq!(dir.read(plan.copies[1]), put("b", "2"));
    assert_eq!(store.generations(), vec![0]);
    compact(&mut store, &mut dir).unwrap();
    let a = put("a", "1").len() as u64;
    let b = put("b", "2").len() as u64;
    assert_eq!(store.get("a"), Some(LogPointer { generation: 1, offset: 0, length: a }));
    assert_eq!(store.get("b"), Some(LogPointer { generation: 1, offset: a, length: b }));
    assert_eq!(store.get("c"), None);
    assert_eq!(store.generations(), vec![1, 2]);
    assert_eq!(store.active_generation(), 2);
    assert_eq!(store.position(), 0);
    assert_eq!(store.uncompacted(), 0);
    let mut expected = put("a", "1");
    expected.extend_from_slice(&put("b", "2"));
    assert_eq!(dir.segment(1), &expected);
    assert!(dir.segment(2).is_empty());
    assert_eq!(dir.files.len(), 2);
}

#[test]
fn compaction_of_an_empty_store_leaves_two_empty_segments() {
    let mut dir = Dir::new();
    let mut store = open(&mut dir).unwrap();
    set(&mut store, &mut dir, "k", "v").unwrap();
    remove(&mut store, &mut dir, "k").unwrap();
    compact(&mut store, &mut dir).unwrap();
    assert_eq!(dir.files.len(), 2);
    assert_eq!(dir.size(), 0);
    assert_eq!(store.generations(), vec![1, 2]);
    assert_eq!(store.len(), 0);
}

#[test]
fn compaction_keeps_the_state_wherever_it_happens() {
    let steps: Vec<(&str, Option<&str>)> = vec![
        ("a", Some("1")),
        ("b", Some("2")),
        ("a", Some("3")),
        ("b", None),
        ("c", Some("4")),
        ("a", None),
        ("b", Some("5")),
    ];
    let mut plain_dir = Dir::new();
    let mut plain = open(&mut plain_dir).unwrap();
    let mut dir = Dir::new();
    let mut store = open(&mut dir).unwrap();
    for (key, value) in steps.iter() {
        for (s, d) in [(&mut plain, &mut plain_dir), (&mut store, &mut dir)] {
            match value {
                Some(v) => set(s, d, key, v).unwrap(),
                None => remove(s, d, key).unwrap(),
            }
        }
        compact(&mut store, &mut dir).unwrap();
        compact(&mut store, &mut dir).unwrap();
        for key in ["a", "b", "c", "d"] {
            assert_eq!(get(&store, &dir, key).unwrap(), get(&plain, &plain_dir, key).unwrap());
        }
    }
    assert_eq!(get(&store, &dir, "a").unwrap(), None);
    assert_eq!(get(&store, &dir, "b").unwrap(), Some("5".to_string()));
    assert_eq!(get(&store, &dir, "c").unwrap(), Some("4".to_string()));
}

#[test]
fn writes_go_on_after_a_compaction() {
    let mut dir = Dir::new();
    let mut store = open(&mut dir).unwrap();
    set(&mut store, &mut dir, "a", "1").unwrap();
    compact(&mut store, &mut dir).unwrap();
    set(&mut store, &mut dir, "b", "2").unwrap();
    set(&mut store, &mut dir, "a", "3").unwrap();
    assert_eq!(dir.segment(1), &put("a", "1"));
    assert_eq!(store.uncompacted(), put("a", "1").len() as u64);
    drop(store);
    let store = open(&mut dir).unwrap();
    assert_eq!(get(&store, &dir, "a").unwrap(), Some("3".to_string()));
    assert_eq!(get(&store, &dir, "b").unwrap(), Some("2".to_string()));
    assert_eq!(store.uncompacted(), put("a", "1").len() as u64);
}

#[test]
fn a_value_stays_until_its_key_is_written_again() {
    let mut dir = Dir::new();
    let mut store = open(&mut dir).unwrap();
    set(&mut store, &mut dir, "k", "v").unwrap();
    set(&mut store, &mut dir, "other", "1").unwrap();
    remove(&mut store, &mut dir, "other").unwrap();
    set(&mut store, &mut dir, "kk", "2").unwrap();
    assert_eq!(get(&store, &dir, "k").unwrap(), Some("v".to_string()));
    set(&mut store, &mut dir, "k", "w").unwrap();
    assert_eq!(get(&store, &dir, "k").unwrap(), Some("w".to_string()));
}

#[test]
fn keys_and_values_may_hold_any_text() {
    let mut dir = Dir::new();
    let mut store = open(&mut dir).unwrap();
    let pairs = [("", ""), (" ", "\n\t"), ("\"", "\\"), ("ключ", "值"), ("{\"Rm\"", "}}")];
    for (key, value) in pairs.iter() {
        set(&mut store, &mut dir, key, value).unwrap();
    }
    drop(store);
    let store = open(&mut dir).unwrap();
    for (key, value) in pairs.iter() {
        assert_eq!(get(&store, &dir, key).unwrap(), Some(value.to_string()));
    }
}

#[test]
fn bytes_that_are_no_record_fail_the_open() {
    let mut dir = Dir::new();
    let mut bytes = put("a", "1");
    bytes.extend_from_slice(b"garbage");
    bytes.extend_from_slice(&put("b", "2"));
    dir.files.insert("0.log".to_string(), bytes);
    match open(&mut dir) {
        Err(e) => {
            assert_eq!(e.kind, ErrorKind::Integrity);
            assert_eq!(e.message(), "Unexpected record in the log");
        }
        Ok(_) => panic!("opened"),
    }
}

#[test]
fn segments_out_of_order_fail_the_open() {
    let segments = vec![
        Segment { generation: 2, bytes: Vec::new() },
        Segment { generation: 1, bytes: Vec::new() },
    ];
    match KvStore::open(&segments) {
        Err(e) => assert_eq!(e.kind, ErrorKind::Integrity),
        Ok(_) => panic!("opened"),
    }
    let segments = vec![
        Segment { generation: 1, bytes: Vec::new() },
        Segment { generation: 1, bytes: Vec::new() },
    ];
    assert!(KvStore::open(&segments).is_err());
}

#[test]
fn the_last_generation_has_no_successor() {
    let segments = vec![Segment { generation: u64::MAX, bytes: Vec::new() }];
    match KvStore::open(&segments) {
        Err(e) => {
            assert_eq!(e.kind, ErrorKind::Io);
            assert_eq!(e.message(), "Log position out of range");
        }
        Ok(_) => panic!("opened"),
    }
}

#[test]
fn compaction_needs_two_more_generations() {
    let segments = vec![Segment { generation: u64::MAX - 2, bytes: put("k", "v") }];
    let mut store = KvStore::open(&segments).unwrap();
    assert_eq!(store.active_generation(), u64::MAX - 1);
    assert_eq!(store.compact().err().map(|e| e.kind), Some(ErrorKind::Io));
    assert_eq!(store.finish_compaction().err().map(|e| e.kind), Some(ErrorKind::Io));
    assert_eq!(store.generations(), vec![u64::MAX - 2, u64::MAX - 1]);
    assert!(store.get("k").is_some());
}

#[test]
fn read_value_wants_the_put_record_of_the_key() {
    assert_eq!(KvStore::read_value("k", &put("k", "v")).unwrap(), "v");
    let wrong: Vec<Vec<u8>> = vec![
        put("j", "v"),
        rm("k"),
        Vec::new(),
        put("k", "v")[..10].to_vec(),
        [put("k", "v"), put("k", "w")].concat(),
        b"garbage".to_vec(),
    ];
    for bytes in wrong.iter() {
        let e = KvStore::read_value("k", bytes).unwrap_err();
        assert_eq!(e.kind, ErrorKind::Integrity);
    }
}

#[test]
fn replay_reads_one_segment_into_the_directory() {
    let mut bytes = put("a", "1");
    let a1 = bytes.len() as u64;
    bytes.extend_from_slice(&put("b", "2"));
    let b2 = bytes.len() as u64 - a1;
    bytes.extend_from_slice(&put("a", "3"));
    let a3 = bytes.len() as u64 - a1 - b2;
    bytes.extend_from_slice(&rm("b"));
    let rm_b = bytes.len() as u64 - a1 - b2 - a3;
    let mut index = KeyDir::new();
    let dead = build_index_from_reader(5, &bytes, &mut index).unwrap();
    assert_eq!(dead, a1 + b2 + rm_b);
    assert_eq!(index.len(), 1);
    assert_eq!(index.get("a"), Some(LogPointer { generation: 5, offset: a1 + b2, length: a3 }));
    assert_eq!(index.get("b"), None);
}

#[test]
fn replay_counts_what_it_supersedes_in_earlier_segments() {
    let mut index = KeyDir::new();
    index.insert("a".to_string(), LogPointer { generation: 1, offset: 40, length: 77 });
    let dead = build_index_from_reader(2, &rm("a"), &mut index).unwrap();
    assert_eq!(dead, 77 + rm("a").len() as u64);
    assert_eq!(index.len(), 0);
    let dead = build_index_from_reader(3, &rm("a"), &mut index).unwrap();
    assert_eq!(dead, rm("a").len() as u64);
}

#[test]
fn replay_of_an_empty_segment_changes_nothing() {
    let mut index = KeyDir::new();
    index.insert("a".to_string(), LogPointer { generation: 1, offset: 0, length: 9 });
    assert_eq!(build_index_from_reader(2, &[], &mut index).unwrap(), 0);
    assert_eq!(index.get("a"), Some(LogPointer { generation: 1, offset: 0, length: 9 }));
}

#[test]
fn replay_stops_at_bytes_that_are_no_record() {
    let mut bytes = put("a", "1");
    let a1 = bytes.len() as u64;
    bytes.extend_from_slice(b"{\"Set\":[]}");
    bytes.extend_from_slice(&put("b", "2"));
    let mut index = KeyDir::new();
    let e = build_index_from_reader(0, &bytes, &mut index).unwrap_err();
    assert_eq!(e.kind, ErrorKind::Integrity);
    assert_eq!(index.get("a"), Some(LogPointer { generation: 0, offset: 0, length: a1 }));
    assert_eq!(index.get("b"), None);
}

#[test]
fn key_not_found_is_its_own_error() {
    let e = key_not_found();
    assert_eq!(e.kind, ErrorKind::KeyNotFound);
    assert_eq!(e.msg, "Key not found");
    let e = KvsError::io("disk full".to_string());
    assert_eq!(e.kind, ErrorKind::Io);
    assert_eq!(e.message(), "disk full");
    let e = KvsError::new(ErrorKind::Codec, "why");
    assert_eq!(e.kind, ErrorKind::Codec);
    assert_eq!(e.msg, "why");
    assert_eq!(KvsError::of(ErrorKind::Integrity).msg, "Unexpected record in the log");
}

#[test]
fn a_thread_pool_has_the_size_it_was_made_with() {
    assert_eq!(ThreadPool::new(4).unwrap().pool_size(), 4);
    assert_eq!(ThreadPool::new(0).unwrap().pool_size(), 0);
}

#[test]
fn an_empty_record_moves_nothing() {
    let mut dir = Dir::new();
    let mut store = open(&mut dir).unwrap();
    set(&mut store, &mut dir, "k", "v").unwrap();
    let position = store.position();
    let first = store.get("k");
    let huge = Append {
        command: KvsCommand::Put { key: "k".to_string(), value: String::new() },
        record: Vec::new(),
    };
    assert_eq!(store.commit(huge).unwrap(), false);
    assert_eq!(store.position(), position);
    assert_eq!(store.get("k"), Some(LogPointer { generation: 0, offset: position, length: 0 }));
    assert_eq!(store.uncompacted(), first.unwrap().length);
}

#[test]
fn a_tombstone_for_an_absent_key_is_dead_itself() {
    let mut dir = Dir::new();
    let mut store = open(&mut dir).unwrap();
    let tombstone = Append { command: KvsCommand::Rm { key: "k".to_string() }, record: rm("k") };
    store.commit(tombstone).unwrap();
    assert_eq!(store.uncompacted(), rm("k").len() as u64);
    assert_eq!(store.position(), rm("k").len() as u64);
    assert_eq!(store.len(), 0);
}

#[test]
fn stage_hands_a_failed_encoding_on() {
    let mut dir = Dir::new();
    let store = open(&mut dir).unwrap();
    let command = KvsCommand::Put { key: "k".to_string(), value: "v".to_string() };
    let e = store.stage(command, Err(KvsError::new(ErrorKind::Codec, "no literal"))).err().unwrap();
    assert_eq!(e.kind, ErrorKind::Codec);
    assert_eq!(e.msg, "no literal");
}

#[test]
fn stage_takes_the_record_that_fits() {
    let mut dir = Dir::new();
    let store = open(&mut dir).unwrap();
    let command = KvsCommand::Rm { key: "k".to_string() };
    let append = store.stage(command, Ok(rm("k"))).ok().unwrap();
    assert_eq!(append.record, rm("k"));
    assert!(kvs::codec::same_command(&append.command, &KvsCommand::Rm { key: "k".to_string() }));
    assert_eq!(store.position(), 0);
}

#[test]
fn a_damaged_end_of_a_segment_is_passed_over() {
    let mut dir = Dir::new();
    let mut bytes = put("a", "1");
    bytes.extend_from_slice(b"xyz");
    dir.files.insert("0.log".to_string(), bytes);
    let store = open(&mut dir).unwrap();
    assert_eq!(get(&store, &dir, "a").unwrap(), Some("1".to_string()));
    assert_eq!(store.len(), 1);
    assert_eq!(store.uncompacted(), 0);
    assert_eq!(store.generations(), vec![0, 1]);
}

#[test]
fn replay_passes_over_bytes_that_hold_no_record() {
    let mut bytes = put("a", "1");
    let a1 = bytes.len() as u64;
    bytes.extend_from_slice(&rm("b"));
    let rm_b = bytes.len() as u64 - a1;
    bytes.extend_from_slice(b"{\"Set\":[]}{\"Rm\":{\"key\":\"a\"}");
    let mut index = KeyDir::new();
    assert_eq!(build_index_from_reader(3, &bytes, &mut index).unwrap(), rm_b);
    assert_eq!(index.get("a"), Some(LogPointer { generation: 3, offset: 0, length: a1 }));
    let mut index = KeyDir::new();
    assert_eq!(build_index_from_reader(3, b"garbage", &mut index).unwrap(), 0);
    assert_eq!(index.len(), 0);
}

#[test]
fn damage_before_a_whole_record_is_an_error_wherever_the_record_stands() {
    for between in [&b""[..], &b"more garbage"[..], &b"{\"Set\":{\"key\":\""[..]] {
        let mut bytes = put("a", "1");
        bytes.extend_from_slice(b"xyz");
        bytes.extend_from_slice(between);
        bytes.extend_from_slice(&rm("a"));
        bytes.extend_from_slice(b"tail");
        let mut index = KeyDir::new();
        let e = build_index_from_reader(0, &bytes, &mut index).unwrap_err();
        assert_eq!(e.kind, ErrorKind::Integrity);
        assert!(index.get("a").is_some());
    }
}

#[test]
fn set_and_remove_give_their_records() {
    let mut dir = Dir::new();
    let mut store = open(&mut dir).unwrap();
    let pairs = [("k", "v"), ("", ""), ("a\"b\\c", "line\nbreak\u{0}"), ("ключ", "🦀")];
    for (key, value) in pairs.iter() {
        let append = store.set(key.to_string(), value.to_string()).unwrap();
        assert_eq!(append.record, put(key, value));
        store.commit(append).unwrap();
        let append = store.remove(key.to_string()).unwrap();
        assert_eq!(append.record, rm(key));
        store.commit(append).unwrap();
        assert_eq!(store.remove(key.to_string()).err().unwrap().kind, ErrorKind::KeyNotFound);
    }
}

#[test]
fn a_message_is_an_error_of_its_own() {
    let e = kvs::MessageError::custom("cannot write");
    assert_eq!(e.message(), "cannot write");
    assert!(matches!(e, kvs::MessageError::Message(ref msg) if msg == "cannot write"));
    assert_eq!(kvs::MessageError::Message(String::new()).message(), "");
}
