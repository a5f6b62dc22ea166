use kvs::engine::keydir::{KeyDir, LogPointer};
use kvs::engine::segment::LogState;

fn pointer(pos: u64) -> LogPointer {
    LogPointer { pos, size: 10, log: 1, log_state: LogState::Write }
}

#[test]
fn insert_returns_the_prior_pointer() {
    let mut dir = KeyDir::new();
    assert_eq!(dir.get("a"), None);
    assert!(!dir.contains_key("a"));
    assert_eq!(dir.insert("a".to_string(), pointer(0)), None);
    assert_eq!(dir.get("a"), Some(pointer(0)));
    assert!(dir.contains_key("a"));
    assert_eq!(dir.insert("a".to_string(), pointer(10)), Some(pointer(0)));
    assert_eq!(dir.get("a"), Some(pointer(10)));
    assert_eq!(dir.get("b"), None);
}

#[test]
fn remove_returns_the_prior_pointer() {
    let mut dir = KeyDir::new();
    dir.insert("a".to_string(), pointer(0));
    dir.insert("b".to_string(), pointer(10));
    assert_eq!(dir.remove("a"), Some(pointer(0)));
    assert_eq!(dir.remove("a"), None);
    assert_eq!(dir.get("a"), None);
    assert_eq!(dir.get("b"), Some(pointer(10)));
}

#[test]
fn compare_and_set_moves_only_the_expected_pointer() {
    let mut dir = KeyDir::new();
    dir.insert("a".to_string(), pointer(0));
    assert!(!dir.compare_and_set("a", pointer(5), pointer(20)));
    assert_eq!(dir.get("a"), Some(pointer(0)));
    assert!(dir.compare_and_set("a", pointer(0), pointer(20)));
    assert_eq!(dir.get("a"), Some(pointer(20)));
    assert!(!dir.compare_and_set("b", pointer(0), pointer(20)));
    assert_eq!(dir.get("b"), None);
}

#[test]
fn keys_come_out_once_each() {
    let mut dir = KeyDir::new();
    assert_eq!(dir.keys(), Vec::<String>::new());
    for key in ["b", "a", "c", "a"] {
        dir.insert(key.to_string(), pointer(0));
    }
    dir.remove("c");
    let mut keys = dir.keys();
    keys.sort();
    assert_eq!(keys, vec!["a".to_string(), "b".to_string()]);
}
