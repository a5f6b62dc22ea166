//! The storage engines: the interface that a server drives, and the
//! log-structured engine with its parts.

use crate::common::CommandView;
use crate::error::KvsError;
use vstd::prelude::*;

pub mod directory;
pub mod keydir;
pub mod olskv;
pub mod opening;
pub mod pointers;
pub mod reader;
pub mod record;
pub mod replay;
pub mod segment;
pub mod writer;

pub use olskv::OptLogStructKvs;

verus! {

/// The store, under the name by which single-process callers know it.
pub type KvStore = OptLogStructKvs;

/// The store, under the name of its log-structured design.
pub type LogStructKVStore = OptLogStructKvs;

/// The map of a store that holds nothing.
pub open spec fn nothing_held() -> Map<Seq<char>, Seq<char>> {
    Map::empty()
}

/// The map that a store holds after `value` was set under `key`.
pub open spec fn after_set(
    held: Map<Seq<char>, Seq<char>>,
    key: Seq<char>,
    value: Seq<char>,
) -> Map<Seq<char>, Seq<char>> {
    held.insert(key, value)
}

/// What reading `key` gives in a store that holds `held`.
pub open spec fn read(held: Map<Seq<char>, Seq<char>>, key: Seq<char>) -> Option<Seq<char>> {
    if held.contains_key(key) {
        Some(held[key])
    } else {
        None
    }
}

/// What removing `key` gives in a store that holds `held`: the map without
/// the key, or `KeyNotFound` where the key is not held.
pub open spec fn after_remove(held: Map<Seq<char>, Seq<char>>, key: Seq<char>) -> Result<
    Map<Seq<char>, Seq<char>>,
    KvsError,
> {
    if held.contains_key(key) {
        Ok(held.remove(key))
    } else {
        Err(KvsError::KeyNotFound)
    }
}

/// The map that a store holds after one request: a `Put` sets, an `Rm`
/// removes where the key is held and is refused where it is not, and a
/// `Get` changes nothing.
pub open spec fn after_request(
    held: Map<Seq<char>, Seq<char>>,
    cmd: CommandView,
) -> Map<Seq<char>, Seq<char>> {
    match cmd {
        CommandView::Put { key, value } => after_set(held, key, value),
        CommandView::Get { key } => held,
        CommandView::Rm { key } => match after_remove(held, key) {
            Ok(rest) => rest,
            Err(_) => held,
        },
    }
}

/// The map that a store holds after a run of requests, carried out one
/// after the other.
pub open spec fn after_requests(
    held: Map<Seq<char>, Seq<char>>,
    cmds: Seq<CommandView>,
) -> Map<Seq<char>, Seq<char>>
    decreases cmds.len(),
{
    if cmds.len() == 0 {
        held
    } else {
        after_request(after_requests(held, cmds.drop_last()), cmds.last())
    }
}

/// The last `Put` or `Rm` on `key` in a run of requests, if there is one.
pub open spec fn last_write_on(cmds: Seq<CommandView>, key: Seq<char>) -> Option<CommandView>
    decreases cmds.len(),
{
    if cmds.len() == 0 {
        None
    } else if cmds.last().key() == key && !(cmds.last() is Get) {
        Some(cmds.last())
    } else {
        last_write_on(cmds.drop_last(), key)
    }
}

/// A value that was set is read back.
pub proof fn law_set_then_get(held: Map<Seq<char>, Seq<char>>, key: Seq<char>, value: Seq<char>)
    ensures
        read(after_set(held, key, value), key) == Some(value),
{
}

/// Of two values set one after the other, the second is read back.
pub proof fn law_set_twice_then_get(
    held: Map<Seq<char>, Seq<char>>,
    key: Seq<char>,
    first: Seq<char>,
    second: Seq<char>,
)
    ensures
        read(after_set(after_set(held, key, first), key, second), key) == Some(second),
{
}

/// A key that was set and then removed is not read back, and its removal
/// succeeds.
pub proof fn law_set_remove_then_get(
    held: Map<Seq<char>, Seq<char>>,
    key: Seq<char>,
    value: Seq<char>,
)
    ensures
        after_remove(after_set(held, key, value), key) is Ok,
        read(after_remove(after_set(held, key, value), key)->Ok_0, key) is None,
{
}

/// Removing a key that is not held fails with `KeyNotFound`, and the key
/// is still not read back.
pub proof fn law_remove_absent(held: Map<Seq<char>, Seq<char>>, key: Seq<char>)
    requires
        !held.contains_key(key),
    ensures
        after_remove(held, key) is Err,
        after_remove(held, key)->Err_0 == KvsError::KeyNotFound,
        read(held, key) is None,
        read(after_request(held, CommandView::Rm { key }), key) is None,
{
}

/// After any run of requests, what is read under a key is what the last
/// `Put` or `Rm` on that key left there, whatever was done to other keys
/// before, between and after; a key that the run does not write is read as
/// before.
pub proof fn law_last_write_wins(
    held: Map<Seq<char>, Seq<char>>,
    cmds: Seq<CommandView>,
    key: Seq<char>,
)
    ensures
        read(after_requests(held, cmds), key) == match last_write_on(cmds, key) {
            Some(CommandView::Put { key: written, value }) => Some(value),
            Some(_) => None,
            None => read(held, key),
        },
    decreases cmds.len(),
{
    if cmds.len() > 0 {
        law_last_write_wins(held, cmds.drop_last(), key);
    }
}

/// What a string-keyed store offers: the three operations of a key-value
/// store over the map that it holds.
pub trait KvsEngine {
    /// The key-value map that the engine holds.
    spec fn contents(&self) -> Map<Seq<char>, Seq<char>>;

    /// The engine's invariant.
    spec fn valid(&self) -> bool;

    /// Stores `value` under `key`, replacing any value that `key` had. An
    /// engine that fails leaves its map as it was.
    fn set(&mut self, key: String, value: String) -> (done: Result<(), KvsError>)
        requires
            old(self).valid(),
        ensures
            final(self).valid(),
            final(self).contents() == if done is Ok {
                after_set(old(self).contents(), key@, value@)
            } else {
                old(self).contents()
            },
    ;

    /// Reads the value of `key`: `None` where the engine holds none.
    fn get(&mut self, key: String) -> (found: Result<Option<String>, KvsError>)
        requires
            old(self).valid(),
        ensures
            final(self).valid(),
            final(self).contents() == old(self).contents(),
            match found {
                Ok(Some(value)) => read(old(self).contents(), key@) == Some(value@),
                Ok(None) => read(old(self).contents(), key@) is None,
                Err(error) => true,
            },
    ;

    /// Deletes `key`. Fails with `KeyNotFound` where the engine holds no
    /// such key. An engine that fails leaves its map as it was.
    fn remove(&mut self, key: String) -> (done: Result<(), KvsError>)
        requires
            old(self).valid(),
        ensures
            final(self).valid(),
            match done {
                Ok(_) => after_remove(old(self).contents(), key@) is Ok && after_remove(
                    old(self).contents(),
                    key@,
                )->Ok_0 == final(self).contents(),
                Err(error) => final(self).contents() == old(self).contents() && (error
                    == KvsError::KeyNotFound ==> after_remove(old(self).contents(), key@) is Err),
            },
            after_remove(old(self).contents(), key@) is Err ==> done is Err && done->Err_0
                == KvsError::KeyNotFound,
    ;
}

} // verus!
