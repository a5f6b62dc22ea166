//! The key directory: for every live key, where its current record lies.

use crate::engine::segment::LogState;
use crossbeam::atomic::AtomicCell;
use crossbeam_skiplist::SkipMap;
use vstd::prelude::*;

verus! {

/// The place of one record: the segment it lies in, where it starts there
/// and how many bytes it takes.
#[derive(Clone, Copy, Debug, PartialEq, Eq, Structural)]
pub struct LogPointer {
    /// Offset of the record's first byte inside the segment.
    pub pos: u64,
    /// Length of the record in bytes.
    pub size: u64,
    /// Id of the segment.
    pub log: u64,
    /// State flag of the segment.
    pub log_state: LogState,
}

/// `crossbeam_skiplist::SkipMap`, a concurrent ordered map. Its inside is
/// not visible to the verifier.
#[verifier::external_type_specification]
#[verifier::external_body]
#[verifier::reject_recursive_types(K)]
#[verifier::reject_recursive_types(V)]
pub struct ExSkipMap<K, V>(SkipMap<K, V>);

/// `crossbeam::atomic::AtomicCell`, a cell that is read and written as a
/// whole. Its inside is not visible to the verifier.
#[verifier::external_type_specification]
#[verifier::external_body]
#[verifier::reject_recursive_types(T)]
pub struct ExAtomicCell<T>(AtomicCell<T>);

/// The entries that a skip map of pointers holds: each key with the pointer
/// last stored in its cell.
pub uninterp spec fn skip_map_entries(map: SkipMap<String, AtomicCell<LogPointer>>) -> Map<
    Seq<char>,
    LogPointer,
>;

/// `SkipMap::new`: the map it returns holds no entry.
#[verifier::external_body]
fn skip_map_new() -> (created: SkipMap<String, AtomicCell<LogPointer>>)
    ensures
        skip_map_entries(created) == (Map::<Seq<char>, LogPointer>::empty()),
{
    SkipMap::new()
}

/// `SkipMap::get`, then `AtomicCell::load` on the entry found: the pointer
/// stored under `key`, or `None` where the map has no such key.
#[verifier::external_body]
fn skip_map_load(map: &SkipMap<String, AtomicCell<LogPointer>>, key: &str) -> (found: Option<
    LogPointer,
>)
    ensures
        found == if skip_map_entries(*map).contains_key(key@) {
            Some(skip_map_entries(*map)[key@])
        } else {
            None
        },
{
    map.get(key).map(|entry| entry.value().load())
}

/// `SkipMap::get`, then `AtomicCell::store` on the entry found: where the
/// map has `key`, its cell now holds `pointer` and `true` is returned; where
/// it has not, nothing changes and `false` is returned.
#[verifier::external_body]
fn skip_map_store(
    map: &mut SkipMap<String, AtomicCell<LogPointer>>,
    key: &str,
    pointer: LogPointer,
) -> (stored: bool)
    ensures
        stored == skip_map_entries(*old(map)).contains_key(key@),
        skip_map_entries(*final(map)) == if stored {
            skip_map_entries(*old(map)).insert(key@, pointer)
        } else {
            skip_map_entries(*old(map))
        },
{
    map.get(key).map(|entry| entry.value().store(pointer)).is_some()
}

/// `SkipMap::insert` with a fresh `AtomicCell`: afterwards the map holds
/// `pointer` under `key`, in place of any earlier entry with that key, and
/// every other entry as before.
#[verifier::external_body]
fn skip_map_insert(
    map: &mut SkipMap<String, AtomicCell<LogPointer>>,
    key: String,
    pointer: LogPointer,
)
    ensures
        skip_map_entries(*final(map)) == skip_map_entries(*old(map)).insert(key@, pointer),
{
    map.insert(key, AtomicCell::new(pointer));
}

/// `SkipMap::remove`, then `AtomicCell::load` on the entry taken out: the
/// entry with `key` leaves the map and its pointer is returned; where there
/// was none, nothing changes and `None` is returned.
#[verifier::external_body]
fn skip_map_remove(map: &mut SkipMap<String, AtomicCell<LogPointer>>, key: &str) -> (removed:
    Option<LogPointer>)
    ensures
        removed == if skip_map_entries(*old(map)).contains_key(key@) {
            Some(skip_map_entries(*old(map))[key@])
        } else {
            None
        },
        skip_map_entries(*final(map)) == skip_map_entries(*old(map)).remove(key@),
{
    map.remove(key).map(|entry| entry.value().load())
}

/// `SkipMap::contains_key`: whether the map has an entry with `key`.
#[verifier::external_body]
fn skip_map_contains_key(map: &SkipMap<String, AtomicCell<LogPointer>>, key: &str) -> (found:
    bool)
    ensures
        found == skip_map_entries(*map).contains_key(key@),
{
    map.contains_key(key)
}

/// `SkipMap::iter`, each entry mapped to a copy of its key: every key of the
/// map comes out exactly once.
#[verifier::external_body]
fn skip_map_keys(map: &SkipMap<String, AtomicCell<LogPointer>>) -> (keys: Vec<String>)
    ensures
        forall|i: int, j: int|
            0 <= i < j < keys@.len() ==> (#[trigger] keys@[i])@ != (#[trigger] keys@[j])@,
        forall|i: int|
            0 <= i < keys@.len() ==> skip_map_entries(*map).contains_key((#[trigger] keys@[i])@),
        forall|key: Seq<char>| #[trigger]
            skip_map_entries(*map).contains_key(key) ==> exists|i: int|
                0 <= i < keys@.len() && (#[trigger] keys@[i])@ == key,
{
    map.iter().map(|entry| entry.key().clone()).collect()
}

/// The key directory of a store.
pub struct KeyDir {
    map: SkipMap<String, AtomicCell<LogPointer>>,
}

impl View for KeyDir {
    type V = Map<Seq<char>, LogPointer>;

    closed spec fn view(&self) -> Map<Seq<char>, LogPointer> {
        skip_map_entries(self.map)
    }
}

impl KeyDir {
    /// A directory without entries.
    pub fn new() -> (dir: KeyDir)
        ensures
            dir@ == (Map::<Seq<char>, LogPointer>::empty()),
    {
        KeyDir { map: skip_map_new() }
    }

    /// The pointer of `key`, if the directory has one.
    pub fn get(&self, key: &str) -> (found: Option<LogPointer>)
        ensures
            found == if self@.contains_key(key@) {
                Some(self@[key@])
            } else {
                None
            },
    {
        skip_map_load(&self.map, key)
    }

    /// Whether the directory has `key`.
    pub fn contains_key(&self, key: &str) -> (found: bool)
        ensures
            found == self@.contains_key(key@),
    {
        skip_map_contains_key(&self.map, key)
    }

    /// Sets the pointer of `key` and returns the one it had before, if any.
    pub fn insert(&mut self, key: String, pointer: LogPointer) -> (prior: Option<LogPointer>)
        ensures
            final(self)@ == old(self)@.insert(key@, pointer),
            prior == if old(self)@.contains_key(key@) {
                Some(old(self)@[key@])
            } else {
                None
            },
    {
        let prior = skip_map_load(&self.map, key.as_str());
        if prior.is_some() {
            skip_map_store(&mut self.map, key.as_str(), pointer);
        } else {
            skip_map_insert(&mut self.map, key, pointer);
        }
        prior
    }

    /// Takes `key` out of the directory and returns the pointer it had, if
    /// any.
    pub fn remove(&mut self, key: &str) -> (prior: Option<LogPointer>)
        ensures
            final(self)@ == old(self)@.remove(key@),
            prior == if old(self)@.contains_key(key@) {
                Some(old(self)@[key@])
            } else {
                None
            },
    {
        skip_map_remove(&mut self.map, key)
    }

    /// Moves the pointer of `key` from `source` to `target`, but only if it
    /// still is `source`. Returns whether it did.
    pub fn compare_and_set(&mut self, key: &str, source: LogPointer, target: LogPointer) -> (moved:
        bool)
        ensures
            moved == (old(self)@.contains_key(key@) && old(self)@[key@] == source),
            final(self)@ == if moved {
                old(self)@.insert(key@, target)
            } else {
                old(self)@
            },
    {
        match skip_map_load(&self.map, key) {
            Some(current) => {
                if current == source {
                    skip_map_store(&mut self.map, key, target)
                } else {
                    false
                }
            },
            None => false,
        }
    }

    /// The keys of the directory, each exactly once.
    pub fn keys(&self) -> (keys: Vec<String>)
        ensures
            forall|i: int, j: int|
                0 <= i < j < keys@.len() ==> (#[trigger] keys@[i])@ != (#[trigger] keys@[j])@,
            forall|i: int| 0 <= i < keys@.len() ==> self@.contains_key((#[trigger] keys@[i])@),
            forall|key: Seq<char>| #[trigger]
                self@.contains_key(key) ==> exists|i: int|
                    0 <= i < keys@.len() && (#[trigger] keys@[i])@ == key,
    {
        skip_map_keys(&self.map)
    }
}

} // verus!
