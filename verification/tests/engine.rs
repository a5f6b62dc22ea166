use kvs::engine::directory::{Directory, DiskChange};
use kvs::engine::keydir::LogPointer;
use kvs::engine::olskv::{value_of_record, OptLogStructKvs, COMPACT_THRESHOLD};
use kvs::engine::record::encode;
use kvs::engine::segment::LogState;
use kvs::engine::KvsEngine;
use kvs::common::Command;
use kvs::error::KvsError;
use std::collections::BTreeMap;
use std::sync::Mutex;

fn open(folder: Directory) -> OptLogStructKvs {
    OptLogStructKvs::open(folder).unwrap()
}

fn set(store: &mut OptLogStructKvs, key: &str, value: &str) {
    store.set(key.to_string(), value.to_string()).unwrap();
}

fn get(store: &mut OptLogStructKvs, key: &str) -> Option<String> {
    store.get(key.to_string()).unwrap()
}

fn copy_of(folder: &Directory) -> Directory {
    let files: Vec<(String, Vec<u8>)> =
        (0..folder.len()).map(|i| (folder.file_name(i), folder.segment(i).data.clone())).collect();
    Directory::from_files(&files)
}

fn total_bytes(folder: &Directory) -> usize {
    (0..folder.len()).map(|i| folder.segment(i).data.len()).sum()
}

#[test]
fn open_empty_then_set_and_get() {
    let mut store = open(Directory::new());
    set(&mut store, "k1", "v1");
    assert_eq!(get(&mut store, "k1"), Some("v1".to_string()));
    assert_eq!(get(&mut store, "k2"), None);
}

#[test]
fn open_empty_holds_nothing() {
    let mut store = open(Directory::new());
    assert_eq!(get(&mut store, "anything"), None);
    assert_eq!(get(&mut store, ""), None);
    assert_eq!(store.uncompacted_size(), 0);
    assert_eq!(store.folder().len(), 1);
    assert_eq!(store.folder().file_name(0), "?0.log");
}

#[test]
fn set_twice_reads_second_value() {
    let mut store = open(Directory::new());
    set(&mut store, "k", "v1");
    set(&mut store, "k", "v2");
    assert_eq!(get(&mut store, "k"), Some("v2".to_string()));
}

#[test]
fn set_then_remove_reads_nothing() {
    let mut store = open(Directory::new());
    set(&mut store, "k", "v");
    assert_eq!(store.remove("k".to_string()), Ok(()));
    assert_eq!(get(&mut store, "k"), None);
}

#[test]
fn remove_of_absent_key_is_key_not_found() {
    let mut store = open(Directory::new());
    assert_eq!(store.remove("k".to_string()), Err(KvsError::KeyNotFound));
    assert_eq!(get(&mut store, "k"), None);
    assert_eq!(store.folder().segment(0).data.len(), 0);
}

#[test]
fn overwrites_and_removal_survive_reopening() {
    let mut store = open(Directory::new());
    set(&mut store, "k", "a");
    set(&mut store, "k", "b");
    set(&mut store, "k", "c");
    store.remove("k".to_string()).unwrap();
    assert_eq!(get(&mut store, "k"), None);
    let folder = store.close();
    let mut store = open(folder);
    assert_eq!(get(&mut store, "k"), None);
}

#[test]
fn values_survive_reopening() {
    let mut store = open(Directory::new());
    set(&mut store, "a", "1");
    set(&mut store, "b", "2");
    set(&mut store, "a", "3");
    store.remove("b".to_string()).unwrap();
    set(&mut store, "c", "");
    let folder = store.close();
    let mut store = open(folder);
    assert_eq!(get(&mut store, "a"), Some("3".to_string()));
    assert_eq!(get(&mut store, "b"), None);
    assert_eq!(get(&mut store, "c"), Some("".to_string()));
    set(&mut store, "d", "4");
    let mut store = open(store.close());
    assert_eq!(get(&mut store, "d"), Some("4".to_string()));
    assert_eq!(store.folder().len(), 1);
}

#[test]
fn pointer_says_where_the_record_lies() {
    let mut store = open(Directory::new());
    set(&mut store, "k", "v");
    set(&mut store, "key", "value");
    assert_eq!(
        store.pointer_of("k"),
        Some(LogPointer { pos: 0, size: 22, log: 0, log_state: LogState::Write })
    );
    assert_eq!(
        store.pointer_of("key"),
        Some(LogPointer { pos: 22, size: 28, log: 0, log_state: LogState::Write })
    );
    assert_eq!(store.pointer_of("other"), None);
    let put = Command::Put { key: "key".to_string(), value: "value".to_string() };
    assert_eq!(&store.folder().segment(0).data[22..50], &encode(&put).unwrap()[..]);
}

#[test]
fn uncompacted_bytes_count_garbage() {
    let mut store = open(Directory::new());
    set(&mut store, "k", "v");
    assert_eq!(store.uncompacted_size(), 0);
    set(&mut store, "k", "vv");
    assert_eq!(store.uncompacted_size(), 22);
    store.remove("k".to_string()).unwrap();
    assert_eq!(store.uncompacted_size(), 22 + 23 + 13);
    let store = open(store.close());
    assert_eq!(store.uncompacted_size(), 22 + 23 + 13);
}

#[test]
fn threshold_trips_one_compaction() {
    let mut store = OptLogStructKvs::open_with(Directory::new(), 100, 1 << 20).unwrap();
    let mut compactions = 0;
    let mut last = String::new();
    for round in 0..6 {
        let before = store.uncompacted_size();
        last = format!("value-{}", round);
        set(&mut store, "key", &last);
        if store.uncompacted_size() < before {
            compactions += 1;
            assert_eq!(store.uncompacted_size(), 0);
            assert_eq!(store.folder().len(), 2);
            assert_eq!(store.folder().file_name(0), "#1.log");
            assert_eq!(store.folder().file_name(1), "?2.log");
            assert_eq!(store.folder().segment(1).data.len(), 0);
            assert_eq!(total_bytes(store.folder()), 4 + 8 + 3 + 8 + last.len());
        }
    }
    assert_eq!(compactions, 1);
    assert_eq!(get(&mut store, "key"), Some(last));
}

#[test]
fn compaction_keeps_every_value() {
    let mut store = OptLogStructKvs::open_with(Directory::new(), u64::MAX, 1 << 20).unwrap();
    for i in 0..50 {
        set(&mut store, &format!("key{}", i), &format!("old{}", i));
    }
    for i in 0..50 {
        if i % 3 == 0 {
            store.remove(format!("key{}", i)).unwrap();
        } else {
            set(&mut store, &format!("key{}", i), &format!("new{}", i));
        }
    }
    let before: Vec<Option<String>> = (0..50).map(|i| get(&mut store, &format!("key{}", i))).collect();
    let bytes_before = total_bytes(store.folder());
    assert_eq!(store.compact(), Ok(true));
    let after: Vec<Option<String>> = (0..50).map(|i| get(&mut store, &format!("key{}", i))).collect();
    assert_eq!(before, after);
    assert_eq!(store.uncompacted_size(), 0);
    assert!(total_bytes(store.folder()) < bytes_before);
    let live: usize = (0..50)
        .filter(|i| i % 3 != 0)
        .map(|i| 4 + 8 + format!("key{}", i).len() + 8 + format!("new{}", i).len())
        .sum();
    assert_eq!(total_bytes(store.folder()), live);
    for i in 0..50 {
        if let Some(pointer) = store.pointer_of(&format!("key{}", i)) {
            assert_eq!(pointer.log_state, LogState::Compacted);
            assert_eq!(pointer.log, 1);
        }
    }
}

#[test]
fn reopening_after_compaction_gives_the_same_map() {
    let mut store = OptLogStructKvs::open_with(Directory::new(), u64::MAX, 1 << 20).unwrap();
    for i in 0..20 {
        set(&mut store, &format!("key{}", i % 7), &format!("value{}", i));
    }
    store.remove("key3".to_string()).unwrap();
    let mut reopened_before = open(copy_of(store.folder()));
    assert_eq!(store.compact(), Ok(true));
    let mut reopened_after = open(store.close());
    for i in 0..8 {
        let key = format!("key{}", i);
        assert_eq!(get(&mut reopened_before, &key), get(&mut reopened_after, &key));
    }
    assert_eq!(get(&mut reopened_after, "key6"), Some("value13".to_string()));
    assert_eq!(get(&mut reopened_after, "key5"), Some("value19".to_string()));
    assert_eq!(get(&mut reopened_after, "key3"), None);
    assert_eq!(reopened_after.uncompacted_size(), 0);
}

#[test]
fn writes_after_compaction_survive_reopening() {
    let mut store = OptLogStructKvs::open_with(Directory::new(), u64::MAX, 1 << 20).unwrap();
    assert!(store.tail_is_empty());
    set(&mut store, "a", "1");
    set(&mut store, "b", "2");
    assert!(store.tail_is_empty());
    assert_eq!(store.compact(), Ok(true));
    assert!(store.tail_is_empty());
    set(&mut store, "a", "3");
    store.remove("b".to_string()).unwrap();
    let mut store = open(store.close());
    assert_eq!(get(&mut store, "a"), Some("3".to_string()));
    assert_eq!(get(&mut store, "b"), None);
}

#[test]
fn compaction_goes_on_in_a_new_segment_past_the_size_limit() {
    let mut store = OptLogStructKvs::open_with(Directory::new(), u64::MAX, 60).unwrap();
    for i in 0..6 {
        set(&mut store, &format!("k{}", i), "0123456789");
    }
    assert_eq!(store.compact(), Ok(true));
    let names: Vec<String> = (0..store.folder().len()).map(|i| store.folder().file_name(i)).collect();
    assert_eq!(names, vec!["#1.log", "#2.log", "#3.log", "?4.log"]);
    assert!(store.tail_is_empty());
    assert_eq!(store.folder().segment(0).data.len(), 2 * 32);
    assert_eq!(store.folder().segment(1).data.len(), 2 * 32);
    assert_eq!(store.folder().segment(2).data.len(), 2 * 32);
    assert_eq!(store.folder().segment(3).data.len(), 0);
    set(&mut store, "k5", "new");
    store.remove("k0".to_string()).unwrap();
    let mut reopened = open(copy_of(store.folder()));
    assert_eq!(get(&mut reopened, "k5"), Some("new".to_string()));
    assert_eq!(get(&mut reopened, "k0"), None);
    set(&mut store, "k5", "0123456789");
    set(&mut store, "k0", "0123456789");
    let mut reopened = open(copy_of(store.folder()));
    for i in 0..6 {
        assert_eq!(get(&mut reopened, &format!("k{}", i)), Some("0123456789".to_string()));
    }
    for i in 0..6 {
        assert_eq!(get(&mut store, &format!("k{}", i)), Some("0123456789".to_string()));
    }
}

#[test]
fn heavy_traffic_on_one_key_keeps_the_last_value() {
    let mut store = open(Directory::new());
    let payload = "x".repeat(4096);
    let mut compactions = 0;
    let mut last = String::new();
    for round in 0..1100 {
        let before = store.uncompacted_size();
        last = format!("{}{}", payload, round);
        set(&mut store, "key", &last);
        if store.uncompacted_size() < before {
            compactions += 1;
            assert_eq!(store.folder().len(), 2);
        }
        assert!(store.uncompacted_size() < COMPACT_THRESHOLD + 8192);
    }
    assert_eq!(compactions, 2);
    assert_eq!(get(&mut store, "key"), Some(last));
}

#[test]
fn interleaved_clients_leave_the_last_value_of_each_key() {
    let mut store = open(Directory::new());
    for step in 0..1000 {
        for client in 0..10 {
            let key = ((step * 7 + client * 13) % 100).to_string();
            set(&mut store, &key, &key);
        }
    }
    for key in 0..100 {
        assert_eq!(get(&mut store, &key.to_string()), Some(key.to_string()));
    }
}

#[test]
fn torn_tail_is_left_out_on_open() {
    let mut store = open(Directory::new());
    set(&mut store, "a", "1");
    set(&mut store, "b", "2");
    let mut folder = store.close();
    let torn = encode(&Command::Put { key: "c".to_string(), value: "3".to_string() }).unwrap();
    folder.append(0, LogState::Write, &torn[..torn.len() - 1]).unwrap();
    let mut store = open(folder);
    assert_eq!(get(&mut store, "a"), Some("1".to_string()));
    assert_eq!(get(&mut store, "b"), Some("2".to_string()));
    assert_eq!(get(&mut store, "c"), None);
}

#[test]
fn get_record_ends_the_reading_of_a_segment() {
    let mut folder = Directory::new();
    folder.create(0, LogState::Write);
    let put = |key: &str, value: &str| {
        encode(&Command::Put { key: key.to_string(), value: value.to_string() }).unwrap()
    };
    folder.append(0, LogState::Write, &put("a", "1")).unwrap();
    folder.append(0, LogState::Write, &encode(&Command::Get { key: "a".to_string() }).unwrap()).unwrap();
    folder.append(0, LogState::Write, &put("b", "2")).unwrap();
    let mut store = open(folder);
    assert_eq!(get(&mut store, "a"), Some("1".to_string()));
    assert_eq!(get(&mut store, "b"), None);
}

#[test]
fn open_replays_segments_by_id_and_compacted_first() {
    let put = |key: &str, value: &str| {
        encode(&Command::Put { key: key.to_string(), value: value.to_string() }).unwrap()
    };
    let files = vec![
        ("?10.log".to_string(), put("k", "ten")),
        ("?9.log".to_string(), put("k", "nine")),
        ("#10.log".to_string(), put("k", "compacted")),
        ("notes.txt".to_string(), put("k", "ignored")),
        ("#2.log".to_string(), put("other", "two")),
    ];
    let mut store = open(Directory::from_files(&files));
    assert_eq!(get(&mut store, "k"), Some("ten".to_string()));
    assert_eq!(get(&mut store, "other"), Some("two".to_string()));
    assert_eq!(store.pointer_of("k").unwrap().log, 10);
    set(&mut store, "new", "value");
    assert_eq!(store.pointer_of("new").unwrap().log, 10);
    assert_eq!(store.compact(), Ok(true));
    assert_eq!(store.folder().file_name(0), "#11.log");
    assert_eq!(store.folder().file_name(1), "?12.log");
}

#[test]
fn open_without_a_write_segment_makes_a_new_one() {
    let put = encode(&Command::Put { key: "k".to_string(), value: "v".to_string() }).unwrap();
    let files = vec![("#4.log".to_string(), put)];
    let mut store = open(Directory::from_files(&files));
    assert_eq!(store.folder().len(), 2);
    assert_eq!(store.folder().file_name(1), "?5.log");
    set(&mut store, "k", "w");
    assert_eq!(store.pointer_of("k").unwrap().log, 5);
    let mut store = open(store.close());
    assert_eq!(get(&mut store, "k"), Some("w".to_string()));
}

#[test]
fn open_fails_when_no_segment_id_is_left() {
    let files = vec![("?18446744073709551615.log".to_string(), Vec::new())];
    assert_eq!(OptLogStructKvs::open(Directory::from_files(&files)).err(), Some(KvsError::Io));
    let files = vec![("#18446744073709551614.log".to_string(), Vec::new())];
    assert_eq!(OptLogStructKvs::open(Directory::from_files(&files)).err(), Some(KvsError::Io));
    let files = vec![("?18446744073709551614.log".to_string(), Vec::new())];
    let mut store = open(Directory::from_files(&files));
    assert_eq!(store.compact(), Ok(false));
    set(&mut store, "k", "v");
    assert_eq!(get(&mut store, "k"), Some("v".to_string()));
}

#[test]
fn record_that_is_no_put_has_no_value() {
    assert_eq!(
        value_of_record(Command::Put { key: "k".to_string(), value: "v".to_string() }),
        Ok(Some("v".to_string()))
    );
    assert_eq!(
        value_of_record(Command::Rm { key: "k".to_string() }),
        Err(KvsError::UnexpectedCommandType)
    );
    assert_eq!(
        value_of_record(Command::Get { key: "k".to_string() }),
        Err(KvsError::UnexpectedCommandType)
    );
}

#[test]
fn store_serves_through_the_engine_interface() {
    fn drive<E: KvsEngine>(engine: &mut E) {
        engine.set("k".to_string(), "v".to_string()).unwrap();
        assert_eq!(engine.get("k".to_string()), Ok(Some("v".to_string())));
        assert_eq!(engine.remove("k".to_string()), Ok(()));
        assert_eq!(engine.remove("k".to_string()), Err(KvsError::KeyNotFound));
        assert_eq!(engine.get("k".to_string()), Ok(None));
    }
    drive(&mut open(Directory::new()));
}

#[test]
fn keys_and_values_may_be_any_text() {
    let mut store = open(Directory::new());
    set(&mut store, "ключ", "значение ✓");
    set(&mut store, "", "empty key");
    set(&mut store, "line\nbreak", "tab\there");
    let mut store = open(store.close());
    assert_eq!(get(&mut store, "ключ"), Some("значение ✓".to_string()));
    assert_eq!(get(&mut store, ""), Some("empty key".to_string()));
    assert_eq!(get(&mut store, "line\nbreak"), Some("tab\there".to_string()));
}

#[test]
fn reader_drops_the_segments_that_compaction_moved_from() {
    let mut store = OptLogStructKvs::open_with(Directory::new(), u64::MAX, 1 << 20).unwrap();
    assert_eq!(store.opened_segments(), vec![]);
    set(&mut store, "a", "1");
    assert_eq!(store.opened_segments(), vec![]);
    assert_eq!(get(&mut store, "missing"), None);
    assert_eq!(store.opened_segments(), vec![]);
    assert_eq!(get(&mut store, "a"), Some("1".to_string()));
    assert_eq!(store.opened_segments(), vec![(0, '?')]);
    assert_eq!(store.compact(), Ok(true));
    assert_eq!(store.opened_segments(), vec![]);
    assert_eq!(get(&mut store, "a"), Some("1".to_string()));
    assert_eq!(store.opened_segments(), vec![(1, '#')]);
    set(&mut store, "b", "2");
    assert_eq!(get(&mut store, "b"), Some("2".to_string()));
    assert_eq!(store.opened_segments(), vec![(1, '#'), (2, '?')]);
    assert_eq!(store.compact(), Ok(true));
    assert_eq!(store.opened_segments(), vec![]);
}

#[test]
fn ten_threads_set_keys_to_themselves() {
    let store = Mutex::new(open(Directory::new()));
    let pool = rayon::ThreadPoolBuilder::new().num_threads(10).build().unwrap();
    pool.scope(|scope| {
        for worker in 0..10 {
            let store = &store;
            scope.spawn(move |_| {
                for step in 0..1000 {
                    let key = ((step * 7 + worker * 13) % 100).to_string();
                    store.lock().unwrap().set(key.clone(), key).unwrap();
                }
            });
        }
    });
    let mut store = store.into_inner().unwrap();
    for key in 0..100 {
        assert_eq!(store.get(key.to_string()), Ok(Some(key.to_string())));
    }
}

#[test]
fn held_keys_are_the_keys_with_a_pointer() {
    let mut store = OptLogStructKvs::open_with(Directory::new(), 200, 1 << 20).unwrap();
    for step in 0..60 {
        let key = format!("k{}", step % 9);
        if step % 4 == 3 {
            let _ = store.remove(key);
        } else {
            set(&mut store, &key, &step.to_string());
        }
        for probe in 0..10 {
            let key = format!("k{}", probe);
            assert_eq!(store.pointer_of(&key).is_some(), get(&mut store, &key).is_some());
        }
    }
}

fn apply(files: &mut BTreeMap<String, Vec<u8>>, changes: Vec<DiskChange>) {
    for change in changes {
        match change {
            DiskChange::Create { id, state } => {
                files.entry(kvs::engine::segment::log_file_name(id, state)).or_default();
            }
            DiskChange::Append { id, state, bytes } => {
                files.entry(kvs::engine::segment::log_file_name(id, state)).or_default().extend(bytes);
            }
            DiskChange::Remove { id, state } => {
                files.remove(&kvs::engine::segment::log_file_name(id, state)).unwrap();
            }
        }
    }
}

fn files_of(folder: &Directory) -> BTreeMap<String, Vec<u8>> {
    (0..folder.len()).map(|i| (folder.file_name(i), folder.segment(i).data.clone())).collect()
}

#[test]
fn changes_say_what_each_operation_does_to_the_files() {
    let mut store = open(Directory::new());
    assert_eq!(store.take_changes(), vec![DiskChange::Create { id: 0, state: LogState::Write }]);
    assert_eq!(store.take_changes(), vec![]);
    set(&mut store, "k", "v");
    store.remove("k".to_string()).unwrap();
    assert_eq!(store.remove("k".to_string()), Err(KvsError::KeyNotFound));
    assert_eq!(get(&mut store, "k"), None);
    let put = encode(&Command::Put { key: "k".to_string(), value: "v".to_string() }).unwrap();
    let rm = encode(&Command::Rm { key: "k".to_string() }).unwrap();
    assert_eq!(
        store.take_changes(),
        vec![
            DiskChange::Append { id: 0, state: LogState::Write, bytes: put },
            DiskChange::Append { id: 0, state: LogState::Write, bytes: rm },
        ]
    );
    set(&mut store, "a", "1");
    assert_eq!(store.compact(), Ok(true));
    let put = encode(&Command::Put { key: "a".to_string(), value: "1".to_string() }).unwrap();
    assert_eq!(
        store.take_changes(),
        vec![
            DiskChange::Append { id: 0, state: LogState::Write, bytes: put.clone() },
            DiskChange::Create { id: 1, state: LogState::Compacted },
            DiskChange::Append { id: 1, state: LogState::Compacted, bytes: put },
            DiskChange::Create { id: 2, state: LogState::Write },
            DiskChange::Remove { id: 0, state: LogState::Write },
        ]
    );
}

#[test]
fn files_that_follow_the_changes_hold_the_directory() {
    let mut files = BTreeMap::new();
    let mut store = OptLogStructKvs::open_with(Directory::new(), 300, 200).unwrap();
    for step in 0..200 {
        let key = format!("key{}", step % 11);
        if step % 5 == 4 {
            let _ = store.remove(key);
        } else {
            set(&mut store, &key, &format!("value{}", step));
        }
        if step % 3 == 0 {
            apply(&mut files, store.take_changes());
            assert_eq!(files, files_of(store.folder()));
        }
    }
    apply(&mut files, store.take_changes());
    assert_eq!(files, files_of(store.folder()));
    let listing: Vec<(String, Vec<u8>)> = files.into_iter().collect();
    let mut reopened = open(Directory::from_files(&listing));
    for probe in 0..11 {
        let key = format!("key{}", probe);
        assert_eq!(get(&mut reopened, &key), get(&mut store, &key));
    }
}

#[test]
fn tripping_the_threshold_reduces_the_number_of_segments() {
    let put = |key: &str, value: &str| {
        encode(&Command::Put { key: key.to_string(), value: value.to_string() }).unwrap()
    };
    let files = vec![
        ("#3.log".to_string(), put("a", "old")),
        ("#4.log".to_string(), put("b", "old")),
        ("?4.log".to_string(), put("a", "new")),
        ("?7.log".to_string(), put("c", "kept")),
    ];
    let mut store = OptLogStructKvs::open_with(Directory::from_files(&files), 60, 1 << 20).unwrap();
    assert_eq!(store.folder().len(), 4);
    assert_eq!(store.uncompacted_size(), 24);
    set(&mut store, "b", "new");
    assert_eq!(store.uncompacted_size(), 48);
    assert_eq!(store.folder().len(), 4);
    set(&mut store, "c", "new");
    assert_eq!(store.uncompacted_size(), 0);
    let names: Vec<String> = (0..store.folder().len()).map(|i| store.folder().file_name(i)).collect();
    assert_eq!(names, vec!["#8.log", "?9.log"]);
    for key in ["a", "b", "c"] {
        assert_eq!(get(&mut store, key), Some("new".to_string()));
    }
    set(&mut store, "a", "newer");
    assert_eq!(store.uncompacted_size(), 24);
    assert_eq!(store.folder().len(), 2);
}

#[test]
fn compaction_needs_two_segment_ids() {
    let files = vec![("?18446744073709551613.log".to_string(), Vec::new())];
    let mut store = open(Directory::from_files(&files));
    assert_eq!(store.compact(), Ok(false));
    let files = vec![("?18446744073709551612.log".to_string(), Vec::new())];
    let mut store = open(Directory::from_files(&files));
    set(&mut store, "k", "v");
    assert_eq!(store.compact(), Ok(true));
    let names: Vec<String> = (0..store.folder().len()).map(|i| store.folder().file_name(i)).collect();
    assert_eq!(names, vec!["#18446744073709551613.log", "?18446744073709551614.log"]);
    assert_eq!(store.compact(), Ok(false));
    assert_eq!(get(&mut store, "k"), Some("v".to_string()));
}

#[test]
fn store_stays_durable_through_every_operation() {
    let mut store = OptLogStructKvs::open_with(Directory::new(), 150, 100).unwrap();
    for step in 0..300 {
        let key = format!("key{}", (step * 7) % 13);
        if step % 4 == 1 {
            let _ = store.remove(key);
        } else {
            set(&mut store, &key, &format!("value{}", step));
        }
        assert!(store.tail_is_empty());
        if step % 17 == 0 {
            let mut reopened = open(copy_of(store.folder()));
            for probe in 0..13 {
                let key = format!("key{}", probe);
                assert_eq!(get(&mut reopened, &key), get(&mut store, &key));
            }
        }
    }
}
