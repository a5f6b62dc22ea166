use kvs::common::Command;
use kvs::engine::directory::Directory;
use kvs::engine::keydir::LogPointer;
use kvs::engine::reader::LogReader;
use kvs::engine::record::encode;
use kvs::engine::replay::{add_size, build_key_dir};
use kvs::engine::segment::LogState;
use kvs::engine::writer::LogWriter;
use kvs::error::KvsError;

fn two_segments() -> Directory {
    let mut folder = Directory::new();
    folder.create(1, LogState::Write);
    folder.create(2, LogState::Compacted);
    let put = Command::Put { key: "k".to_string(), value: "v".to_string() };
    folder.append(1, LogState::Write, &encode(&put).unwrap()).unwrap();
    folder.append(2, LogState::Compacted, b"no record").unwrap();
    folder
}

#[test]
fn reader_reads_and_remembers_what_it_opened() {
    let folder = two_segments();
    let mut reader = LogReader::new();
    assert_eq!(reader.opened_segments(), vec![]);
    let pointer = LogPointer { pos: 0, size: 22, log: 1, log_state: LogState::Write };
    assert_eq!(
        reader.deserialize(&folder, &pointer),
        Ok(Command::Put { key: "k".to_string(), value: "v".to_string() })
    );
    assert_eq!(reader.opened_segments(), vec![(1, '?')]);
    let pointer = LogPointer { pos: 3, size: 6, log: 2, log_state: LogState::Compacted };
    assert_eq!(reader.read_log(&folder, &pointer), Ok(b"record".to_vec()));
    assert_eq!(reader.deserialize(&folder, &pointer), Err(KvsError::Bincode));
    assert_eq!(reader.opened_segments(), vec![(1, '?'), (2, '#')]);
    assert_eq!(reader.marked_segments(), vec![]);
}

#[test]
fn reader_fails_on_bytes_that_do_not_exist() {
    let folder = two_segments();
    let mut reader = LogReader::new();
    let beyond = LogPointer { pos: 20, size: 3, log: 1, log_state: LogState::Write };
    assert_eq!(reader.read_log(&folder, &beyond), Err(KvsError::Io));
    assert_eq!(reader.opened_segments(), vec![(1, '?')]);
    let absent = LogPointer { pos: 0, size: 0, log: 3, log_state: LogState::Write };
    assert_eq!(reader.read_log(&folder, &absent), Err(KvsError::Io));
    assert_eq!(reader.deserialize(&folder, &absent), Err(KvsError::Io));
    assert_eq!(reader.read_log_clean_after(&folder, &absent), Err(KvsError::Io));
    assert_eq!(reader.opened_segments(), vec![(1, '?')]);
    assert_eq!(reader.marked_segments(), vec![]);
}

#[test]
fn clean_up_drops_the_marked_segments() {
    let folder = two_segments();
    let mut reader = LogReader::new();
    let first = LogPointer { pos: 0, size: 4, log: 1, log_state: LogState::Write };
    let second = LogPointer { pos: 0, size: 2, log: 2, log_state: LogState::Compacted };
    assert_eq!(reader.read_log(&folder, &first), Ok(vec![0, 0, 0, 0]));
    assert_eq!(reader.read_log_clean_after(&folder, &second), Ok(b"no".to_vec()));
    assert_eq!(reader.opened_segments(), vec![(1, '?'), (2, '#')]);
    assert_eq!(reader.marked_segments(), vec![(2, '#')]);
    reader.clean_up();
    assert_eq!(reader.opened_segments(), vec![(1, '?')]);
    assert_eq!(reader.marked_segments(), vec![]);
}

#[test]
fn writer_appends_at_the_end_of_its_segment() {
    let mut folder = two_segments();
    let mut writer = LogWriter::new(&mut folder, 1, LogState::Write);
    assert_eq!((writer.log, writer.log_state, writer.pos), (1, LogState::Write, 22));
    assert_eq!(writer.write_buf(&mut folder, b"abc"), Ok(3));
    assert_eq!(writer.pos, 25);
    let rm = Command::Rm { key: "k".to_string() };
    assert_eq!(writer.write_cmd(&mut folder, &rm), Ok(13));
    assert_eq!(writer.pos, 38);
    assert_eq!(folder.size_of(1, LogState::Write), Some(38));
    assert_eq!(folder.read_at(1, LogState::Write, 22, 3), Ok(b"abc".to_vec()));
    let fresh = LogWriter::new(&mut folder, 7, LogState::Compacted);
    assert_eq!((fresh.log, fresh.log_state, fresh.pos), (7, LogState::Compacted, 0));
    assert_eq!(folder.len(), 3);
}

#[test]
fn writer_rolls_to_another_segment() {
    let mut folder = two_segments();
    let mut writer = LogWriter::new(&mut folder, 1, LogState::Write);
    writer.roll(&mut folder, 5, LogState::Write);
    assert_eq!((writer.log, writer.log_state, writer.pos), (5, LogState::Write, 0));
    assert_eq!(writer.write_buf(&mut folder, b"xy"), Ok(2));
    assert_eq!(folder.size_of(1, LogState::Write), Some(22));
    assert_eq!(folder.size_of(5, LogState::Write), Some(2));
    writer.roll(&mut folder, 2, LogState::Compacted);
    assert_eq!((writer.log, writer.log_state, writer.pos), (2, LogState::Compacted, 9));
    assert_eq!(folder.len(), 3);
}

#[test]
fn writer_fails_when_its_segment_is_gone() {
    let mut folder = two_segments();
    let mut writer = LogWriter::new(&mut folder, 1, LogState::Write);
    folder.remove_file(1, LogState::Write);
    assert_eq!(writer.write_buf(&mut folder, b"abc"), Err(KvsError::Io));
    assert_eq!(writer.pos, 22);
    assert_eq!(folder.len(), 1);
}

#[test]
fn key_directory_is_rebuilt_from_the_segments() {
    let put = |key: &str, value: &str| {
        encode(&Command::Put { key: key.to_string(), value: value.to_string() }).unwrap()
    };
    let rm = |key: &str| encode(&Command::Rm { key: key.to_string() }).unwrap();
    let mut folder = Directory::new();
    folder.create(3, LogState::Compacted);
    folder.create(3, LogState::Write);
    folder.create(8, LogState::Write);
    folder.append(3, LogState::Compacted, &put("a", "1")).unwrap();
    folder.append(3, LogState::Compacted, &put("b", "22")).unwrap();
    folder.append(3, LogState::Write, &put("a", "333")).unwrap();
    folder.append(3, LogState::Write, &rm("b")).unwrap();
    folder.append(3, LogState::Write, &rm("absent")).unwrap();
    folder.append(8, LogState::Write, &put("c", "")).unwrap();
    folder.append(8, LogState::Write, &[0, 0]).unwrap();
    let (key_dir, uncompacted, greatest) = build_key_dir(&folder);
    assert_eq!(key_dir.get("a"), Some(LogPointer { pos: 0, size: 24, log: 3, log_state: LogState::Write }));
    assert_eq!(key_dir.get("b"), None);
    assert_eq!(key_dir.get("c"), Some(LogPointer { pos: 0, size: 21, log: 8, log_state: LogState::Write }));
    assert_eq!(uncompacted, 22 + 23 + 13);
    assert_eq!(greatest, 8);
    let (key_dir, uncompacted, greatest) = build_key_dir(&Directory::new());
    assert_eq!(key_dir.keys(), Vec::<String>::new());
    assert_eq!((uncompacted, greatest), (0, 0));
}

#[test]
fn counter_of_uncompacted_bytes_wraps_round() {
    assert_eq!(add_size(5, 7), 12);
    assert_eq!(add_size(u64::MAX, 2), 1);
    assert_eq!(add_size(u64::MAX, 0), u64::MAX);
}
