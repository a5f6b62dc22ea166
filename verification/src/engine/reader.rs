//! The log reader: positional reads of records, a cache of the segments it
//! has opened, and the set of segments to drop from that cache once a
//! compaction has moved their records away.

use crate::common::Command;
use crate::engine::directory::{data_of, has_segment, Directory, SegmentView};
use crate::engine::keydir::LogPointer;
use crate::engine::record::{decode, decode_command};
use crate::engine::segment::{get_state_flag, spec_state_flag, LogState};
use crate::error::KvsError;
use crossbeam_skiplist::SkipSet;
use vstd::prelude::*;

verus! {

/// `crossbeam_skiplist::SkipSet`, a concurrent ordered set. Its inside is
/// not visible to the verifier.
#[verifier::external_type_specification]
#[verifier::external_body]
#[verifier::reject_recursive_types(T)]
pub struct ExSkipSet<T>(SkipSet<T>);

/// The items that a skip set of segment keys holds. A segment key is the
/// segment's id with the flag character of its state.
pub uninterp spec fn skip_set_items(set: SkipSet<(u64, char)>) -> Set<(u64, char)>;

/// `SkipSet::new`: the set it returns holds no item.
#[verifier::external_body]
fn skip_set_new() -> (created: SkipSet<(u64, char)>)
    ensures
        skip_set_items(created) == Set::<(u64, char)>::empty(),
{
    SkipSet::new()
}

/// `SkipSet::get_or_insert`: afterwards the set holds `item`, and every
/// item it held before.
#[verifier::external_body]
fn skip_set_get_or_insert(set: &mut SkipSet<(u64, char)>, item: (u64, char))
    ensures
        skip_set_items(*final(set)) == skip_set_items(*old(set)).insert(item),
{
    set.get_or_insert(item);
}

/// `SkipSet::insert`: afterwards the set holds `item`, and every item it
/// held before.
#[verifier::external_body]
fn skip_set_insert(set: &mut SkipSet<(u64, char)>, item: (u64, char))
    ensures
        skip_set_items(*final(set)) == skip_set_items(*old(set)).insert(item),
{
    set.insert(item);
}

/// `SkipSet::remove`: afterwards the set does not hold `item`, and holds
/// every other item as before.
#[verifier::external_body]
fn skip_set_remove(set: &mut SkipSet<(u64, char)>, item: (u64, char))
    ensures
        skip_set_items(*final(set)) == skip_set_items(*old(set)).remove(item),
{
    set.remove(&item);
}

/// `SkipSet::iter`, each entry copied out: every item that the set holds
/// is in the result, and nothing else.
#[verifier::external_body]
fn skip_set_to_vec(set: &SkipSet<(u64, char)>) -> (items: Vec<(u64, char)>)
    ensures
        forall|item: (u64, char)| items@.contains(item) == skip_set_items(*set).contains(item),
{
    set.iter().map(|entry| *entry.value()).collect()
}

/// `SkipSet::clear`: afterwards the set holds no item.
#[verifier::external_body]
fn skip_set_clear(set: &mut SkipSet<(u64, char)>)
    ensures
        skip_set_items(*final(set)) == Set::<(u64, char)>::empty(),
{
    set.clear();
}

/// The key under which the reader files a segment.
pub open spec fn handle_key(id: u64, state: LogState) -> (u64, char) {
    (id, spec_state_flag(state))
}

/// The bytes that a pointer refers to, where it refers to bytes that exist.
pub open spec fn record_at(segments: Seq<SegmentView>, pointer: LogPointer) -> Seq<u8> {
    data_of(segments, pointer.log, pointer.log_state).subrange(
        pointer.pos as int,
        pointer.pos + pointer.size,
    )
}

/// Whether a pointer refers to bytes that exist: its segment is present and
/// does not end before the record does.
pub open spec fn readable(segments: Seq<SegmentView>, pointer: LogPointer) -> bool {
    &&& has_segment(segments, pointer.log, pointer.log_state)
    &&& pointer.pos + pointer.size <= data_of(segments, pointer.log, pointer.log_state).len()
}

/// Reads records by pointer and remembers which segments it has opened.
pub struct LogReader {
    readers: SkipSet<(u64, char)>,
    to_clean: SkipSet<(u64, char)>,
}

impl LogReader {
    /// The segments that the reader has opened and not yet dropped.
    pub closed spec fn opened(&self) -> Set<(u64, char)> {
        skip_set_items(self.readers)
    }

    /// The segments that the reader drops at the next clean-up.
    pub closed spec fn marked(&self) -> Set<(u64, char)> {
        skip_set_items(self.to_clean)
    }

    /// A reader that has opened nothing.
    pub fn new() -> (reader: LogReader)
        ensures
            reader.opened() == Set::<(u64, char)>::empty(),
            reader.marked() == Set::<(u64, char)>::empty(),
    {
        LogReader { readers: skip_set_new(), to_clean: skip_set_new() }
    }

    /// The segments that the reader has opened and not yet dropped.
    pub fn opened_segments(&self) -> (items: Vec<(u64, char)>)
        ensures
            forall|item: (u64, char)| items@.contains(item) == self.opened().contains(item),
    {
        skip_set_to_vec(&self.readers)
    }

    /// The segments that the reader drops at the next clean-up.
    pub fn marked_segments(&self) -> (items: Vec<(u64, char)>)
        ensures
            forall|item: (u64, char)| items@.contains(item) == self.marked().contains(item),
    {
        skip_set_to_vec(&self.to_clean)
    }

    /// Reads the bytes that `log_pointer` refers to. A segment that is
    /// present counts as opened from then on. Fails with `Io` where the
    /// pointer refers to bytes that do not exist.
    pub fn read_log(&mut self, folder: &Directory, log_pointer: &LogPointer) -> (bytes: Result<
        Vec<u8>,
        KvsError,
    >)
        requires
            folder.wf(),
        ensures
            match bytes {
                Ok(read) => readable(folder@, *log_pointer) && read@ == record_at(folder@, *log_pointer),
                Err(error) => error == KvsError::Io && !readable(folder@, *log_pointer),
            },
            final(self).marked() == old(self).marked(),
            final(self).opened() == if has_segment(
                folder@,
                log_pointer.log,
                log_pointer.log_state,
            ) {
                old(self).opened().insert(handle_key(log_pointer.log, log_pointer.log_state))
            } else {
                old(self).opened()
            },
    {
        if !folder.contains(log_pointer.log, log_pointer.log_state) {
            return Err(KvsError::Io);
        }
        skip_set_get_or_insert(
            &mut self.readers,
            (log_pointer.log, get_state_flag(log_pointer.log_state)),
        );
        folder.read_at(log_pointer.log, log_pointer.log_state, log_pointer.pos, log_pointer.size)
    }

    /// Reads the record that `log_pointer` refers to and decodes it. Fails
    /// with `Io` where the pointer refers to bytes that do not exist, and
    /// with `Bincode` where the bytes are no record.
    pub fn deserialize(&mut self, folder: &Directory, log_pointer: &LogPointer) -> (cmd: Result<
        Command,
        KvsError,
    >)
        requires
            folder.wf(),
        ensures
            match cmd {
                Ok(cmd) => readable(folder@, *log_pointer) && decode_command(
                    record_at(folder@, *log_pointer),
                ) == Some(cmd@),
                Err(error) => if readable(folder@, *log_pointer) {
                    error == KvsError::Bincode && decode_command(record_at(folder@, *log_pointer))
                        is None
                } else {
                    error == KvsError::Io
                },
            },
            final(self).marked() == old(self).marked(),
            final(self).opened() == if has_segment(
                folder@,
                log_pointer.log,
                log_pointer.log_state,
            ) {
                old(self).opened().insert(handle_key(log_pointer.log, log_pointer.log_state))
            } else {
                old(self).opened()
            },
    {
        let bytes = self.read_log(folder, log_pointer)?;
        decode(bytes.as_slice())
    }

    /// Reads like [`LogReader::read_log`] and, where that succeeds, marks
    /// the segment to be dropped at the next clean-up.
    pub fn read_log_clean_after(&mut self, folder: &Directory, log_pointer: &LogPointer) -> (bytes:
        Result<Vec<u8>, KvsError>)
        requires
            folder.wf(),
        ensures
            match bytes {
                Ok(read) => {
                    &&& readable(folder@, *log_pointer)
                    &&& read@ == record_at(folder@, *log_pointer)
                    &&& final(self).marked() == old(self).marked().insert(
                        handle_key(log_pointer.log, log_pointer.log_state),
                    )
                },
                Err(error) => {
                    &&& error == KvsError::Io
                    &&& !readable(folder@, *log_pointer)
                    &&& final(self).marked() == old(self).marked()
                },
            },
            final(self).opened() == if has_segment(
                folder@,
                log_pointer.log,
                log_pointer.log_state,
            ) {
                old(self).opened().insert(handle_key(log_pointer.log, log_pointer.log_state))
            } else {
                old(self).opened()
            },
    {
        let buf = self.read_log(folder, log_pointer)?;
        skip_set_insert(
            &mut self.to_clean,
            (log_pointer.log, get_state_flag(log_pointer.log_state)),
        );
        Ok(buf)
    }

    /// Drops every marked segment from the opened ones and forgets the
    /// marks.
    pub fn clean_up(&mut self)
        ensures
            final(self).opened() == old(self).opened().difference(old(self).marked()),
            final(self).marked() == Set::<(u64, char)>::empty(),
    {
        let marked = skip_set_to_vec(&self.to_clean);
        let mut i: usize = 0;
        while i < marked.len()
            invariant
                i <= marked.len(),
                self.to_clean == old(self).to_clean,
                forall|item: (u64, char)|
                    marked@.contains(item) == skip_set_items(old(self).to_clean).contains(item),
                forall|item: (u64, char)| #[trigger]
                    skip_set_items(self.readers).contains(item) == (skip_set_items(
                        old(self).readers,
                    ).contains(item) && !marked@.subrange(0, i as int).contains(item)),
            decreases marked.len() - i,
        {
            let item = marked[i];
            skip_set_remove(&mut self.readers, item);
            proof {
                let done = marked@.subrange(0, i as int);
                let next = marked@.subrange(0, i + 1);
                assert(next =~= done.push(item));
                assert forall|other: (u64, char)| #[trigger]
                    skip_set_items(self.readers).contains(other) == (skip_set_items(
                        old(self).readers,
                    ).contains(other) && !next.contains(other)) by {
                    if next.contains(other) {
                        let at = choose|at: int| 0 <= at < next.len() && next[at] == other;
                        if at < i {
                            assert(done[at] == other);
                        }
                    }
                    if done.contains(other) {
                        let at = choose|at: int| 0 <= at < done.len() && done[at] == other;
                        assert(next[at] == other);
                    }
                    assert(next[i as int] == item);
                }
            }
            i = i + 1;
        }
        skip_set_clear(&mut self.to_clean);
        proof {
            assert(marked@.subrange(0, marked@.len() as int) =~= marked@);
            assert(self.opened() =~= old(self).opened().difference(old(self).marked()));
        }
    }
}

} // verus!
