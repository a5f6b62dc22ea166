use kvs::engine::directory::Directory;
use kvs::engine::segment::{create_new_filename, get_state_flag, log_file_name, parse_filename, LogState};
use kvs::error::KvsError;

#[test]
fn file_names_round_trip() {
    assert_eq!(log_file_name(12, LogState::Write), "?12.log");
    assert_eq!(log_file_name(0, LogState::Compacted), "#0.log");
    assert_eq!(log_file_name(u64::MAX, LogState::Write), "?18446744073709551615.log");
    assert_eq!(parse_filename("?12.log"), Some((12, LogState::Write)));
    assert_eq!(parse_filename("#0.log"), Some((0, LogState::Compacted)));
    assert_eq!(parse_filename("#18446744073709551615.log"), Some((u64::MAX, LogState::Compacted)));
    for id in [0u64, 7, 10, 99, 100, 12345678901234567890] {
        for state in [LogState::Write, LogState::Compacted] {
            assert_eq!(parse_filename(&log_file_name(id, state)), Some((id, state)));
        }
    }
}

#[test]
fn other_names_are_no_segments() {
    for name in [
        "",
        "?.log",
        "?12",
        "12.log",
        "!1.log",
        "?012.log",
        "?00.log",
        "?+5.log",
        "?-5.log",
        "?1 .log",
        "?1.LOG",
        "?1.logs",
        "?1.lo",
        "??1.log",
        "?1a.log",
        "?١.log",
        "#18446744073709551616.log",
        "#99999999999999999999999.log",
        ".engine",
        "log",
    ] {
        assert_eq!(parse_filename(name), None, "{}", name);
    }
}

#[test]
fn state_flags() {
    assert_eq!(get_state_flag(LogState::Write), '?');
    assert_eq!(get_state_flag(LogState::Compacted), '#');
}

#[test]
fn new_file_name_moves_the_counter_on() {
    let mut counter = 41;
    assert_eq!(create_new_filename(LogState::Write, &mut counter), "?41.log");
    assert_eq!(counter, 42);
    assert_eq!(create_new_filename(LogState::Compacted, &mut counter), "#42.log");
    assert_eq!(counter, 43);
}

#[test]
fn directory_keeps_segments_in_replay_order() {
    let mut folder = Directory::new();
    assert!(folder.create(5, LogState::Write));
    assert!(folder.create(2, LogState::Write));
    assert!(folder.create(5, LogState::Compacted));
    assert!(folder.create(9, LogState::Compacted));
    assert!(!folder.create(2, LogState::Write));
    assert_eq!(
        folder.keys(),
        vec![
            (2, LogState::Write),
            (5, LogState::Compacted),
            (5, LogState::Write),
            (9, LogState::Compacted)
        ]
    );
    assert_eq!(folder.len(), 4);
    assert_eq!(folder.file_name(1), "#5.log");
    assert!(folder.contains(5, LogState::Write));
    assert!(!folder.contains(9, LogState::Write));
    assert!(folder.remove_file(5, LogState::Compacted));
    assert!(!folder.remove_file(5, LogState::Compacted));
    assert_eq!(folder.keys(), vec![(2, LogState::Write), (5, LogState::Write), (9, LogState::Compacted)]);
}

#[test]
fn directory_appends_and_reads_at_offsets() {
    let mut folder = Directory::new();
    assert_eq!(folder.append(1, LogState::Write, b"abc"), Err(KvsError::Io));
    folder.create(1, LogState::Write);
    folder.create(1, LogState::Compacted);
    assert_eq!(folder.append(1, LogState::Write, b"abc"), Ok(0));
    assert_eq!(folder.append(1, LogState::Write, b"defg"), Ok(3));
    assert_eq!(folder.size_of(1, LogState::Write), Some(7));
    assert_eq!(folder.size_of(1, LogState::Compacted), Some(0));
    assert_eq!(folder.size_of(2, LogState::Write), None);
    assert_eq!(folder.read_at(1, LogState::Write, 2, 3), Ok(b"cde".to_vec()));
    assert_eq!(folder.read_at(1, LogState::Write, 0, 7), Ok(b"abcdefg".to_vec()));
    assert_eq!(folder.read_at(1, LogState::Write, 7, 0), Ok(Vec::new()));
    assert_eq!(folder.read_at(1, LogState::Write, 5, 3), Err(KvsError::Io));
    assert_eq!(folder.read_at(1, LogState::Write, 8, 0), Err(KvsError::Io));
    assert_eq!(folder.read_at(1, LogState::Write, u64::MAX, u64::MAX), Err(KvsError::Io));
    assert_eq!(folder.read_at(1, LogState::Compacted, 0, 1), Err(KvsError::Io));
    assert_eq!(folder.read_at(3, LogState::Write, 0, 0), Err(KvsError::Io));
    assert_eq!(folder.segment(1).data, b"abcdefg".to_vec());
}

#[test]
fn listing_becomes_a_directory() {
    let files = vec![
        ("?3.log".to_string(), b"three".to_vec()),
        ("readme".to_string(), b"no segment".to_vec()),
        ("#1.log".to_string(), b"one".to_vec()),
        ("?3.log".to_string(), b"again".to_vec()),
        ("?03.log".to_string(), b"no segment either".to_vec()),
    ];
    let folder = Directory::from_files(&files);
    assert_eq!(folder.keys(), vec![(1, LogState::Compacted), (3, LogState::Write)]);
    assert_eq!(folder.segment(0).data, b"one".to_vec());
    assert_eq!(folder.segment(1).data, b"three".to_vec());
    assert_eq!(folder.segment(1).id, 3);
    assert_eq!(folder.segment(1).state, LogState::Write);
}
