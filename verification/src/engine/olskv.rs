//! The log-structured engine: every write is appended to the active
//! segment, the key directory says where the current record of each key
//! lies, and compaction copies the live records into fresh segments and
//! deletes the old ones.

pub mod compaction;

use crate::common::{Command, CommandView};
use crate::engine::KvsEngine;
use crate::engine::directory::{
    data_of,
    has_segment,
    in_replay_order,
    index_of,
    is_at,
    key_before,
    lemma_unique_place,
    place_of,
    after_changes,
    files_of,
    Directory,
    DiskChange,
    DiskChangeView,
    SegmentView,
};
use crate::engine::keydir::{KeyDir, LogPointer};
use crate::engine::opening::{
    active_log,
    can_open,
    first_free_log,
    last_write,
    lemma_greatest_id,
    lemma_last_write,
    lemma_opened_recover,
    opened_segments,
};
use crate::engine::pointers::{
    grown_from,
    lemma_appended_record,
    lemma_pointer_kept,
    lemma_pointers_kept,
    lemma_recovered_points,
    live_handles,
    live_size,
    points_at,
    stored_map,
    total_size,
    value_at,
};
use crate::engine::reader::{handle_key, LogReader};
use crate::engine::record::{command_fits, command_size, encode_command};
use crate::engine::replay::{
    add_size,
    build_key_dir,
    clean_from,
    empty_from,
    nothing_recovered,
    recover,
    spec_add_size,
};
use crate::engine::segment::LogState;
use crate::engine::writer::LogWriter;
use crate::error::KvsError;
use vstd::prelude::*;

verus! {

/// The count of uncompacted bytes from which a write starts a compaction.
pub const COMPACT_THRESHOLD: u64 = 2000000;

/// The size from which the compactor leaves a compacted segment and goes
/// on in a new one.
pub const MAX_SEGMENT_SIZE: u64 = 16777216;

/// Whether a change to the files makes or fills a segment with an id from
/// `first` on, and deletes nothing.
pub open spec fn writes_fresh(change: DiskChangeView, first: u64) -> bool {
    match change {
        DiskChangeView::Create { id, state } => id >= first,
        DiskChangeView::Append { id, state, bytes } => id >= first,
        DiskChangeView::Remove { id, state } => false,
    }
}

/// Whether the pending changes are those of `before` and, behind them,
/// only changes that make or fill segments with ids from `first` on.
pub open spec fn fresh_changes(
    pending: Seq<DiskChangeView>,
    before: Seq<DiskChangeView>,
    first: u64,
) -> bool {
    &&& before.len() <= pending.len()
    &&& pending.subrange(0, before.len() as int) == before
    &&& forall|i: int| before.len() <= i < pending.len() ==> writes_fresh(#[trigger] pending[i], first)
}

/// The deletions of the files of `segments`, one after the other.
pub open spec fn removals_of(segments: Seq<SegmentView>) -> Seq<DiskChangeView> {
    segments.map_values(
        |segment: SegmentView| DiskChangeView::Remove { id: segment.id, state: segment.state },
    )
}

/// Whether the pending changes are those of `before`, then what a
/// compaction does to the files, in this order: first it makes and fills
/// segments with ids from `first` on, and only when all of that is done it
/// deletes the files of `victims`, the segments that were there when it
/// began.
pub open spec fn compaction_changes(
    pending: Seq<DiskChangeView>,
    before: Seq<DiskChangeView>,
    victims: Seq<SegmentView>,
    first: u64,
) -> bool {
    &&& before.len() + victims.len() <= pending.len()
    &&& fresh_changes(pending.subrange(0, pending.len() - victims.len()), before, first)
    &&& pending.subrange(pending.len() - victims.len(), pending.len() as int) == removals_of(
        victims,
    )
}

/// Whether the segments are those that a compaction leaves which drew its
/// ids from `first` on: compacted segments with the ids `first`,
/// `first + 1` and so on, each but the last of them longer than `limit`,
/// and behind them the new active segment, empty, with the next id.
pub open spec fn compacted_segments(segments: Seq<SegmentView>, first: u64, limit: u64) -> bool {
    &&& segments.len() >= 2
    &&& forall|i: int|
        0 <= i < segments.len() - 1 ==> (#[trigger] segments[i]).id == first + i
            && segments[i].state == LogState::Compacted
    &&& forall|i: int| 0 <= i < segments.len() - 2 ==> (#[trigger] segments[i]).data.len() > limit
    &&& segments.last() == (SegmentView {
        id: (first + segments.len() - 1) as u64,
        state: LogState::Write,
        data: Seq::empty(),
    })
}

/// The log-structured key-value store.
pub struct OptLogStructKvs {
    log_writer: LogWriter,
    key_dir: KeyDir,
    folder: Directory,
    reader: LogReader,
    log_counter: u64,
    uncompacted_size: u64,
    comp_lock: bool,
    compact_threshold: u64,
    max_segment_size: u64,
}

impl View for OptLogStructKvs {
    type V = Map<Seq<char>, Seq<char>>;

    /// The key-value map that the store holds.
    open spec fn view(&self) -> Map<Seq<char>, Seq<char>> {
        stored_map(self.segments(), self.pointers())
    }
}

impl OptLogStructKvs {
    /// The segments of the store's directory, in replay order.
    pub closed spec fn segments(&self) -> Seq<SegmentView> {
        self.folder@
    }

    /// The key directory of the store.
    pub closed spec fn pointers(&self) -> Map<Seq<char>, LogPointer> {
        self.key_dir@
    }

    /// The log writer of the store.
    pub closed spec fn writer(&self) -> LogWriter {
        self.log_writer
    }

    /// The next segment id that is not in use.
    pub closed spec fn next_log(&self) -> u64 {
        self.log_counter
    }

    /// The count of bytes taken by records that are no longer live.
    pub closed spec fn uncompacted(&self) -> u64 {
        self.uncompacted_size
    }

    /// Whether a compaction is under way.
    pub closed spec fn compacting(&self) -> bool {
        self.comp_lock
    }

    /// The files of the store as they were when the changes were last
    /// taken.
    pub closed spec fn persisted(&self) -> Map<(u64, LogState), Seq<u8>> {
        self.folder.persisted()
    }

    /// The changes to the files since they were last taken, oldest first.
    pub closed spec fn pending(&self) -> Seq<DiskChangeView> {
        self.folder.pending()
    }

    /// The segments that the reader has opened and not yet dropped.
    pub closed spec fn opened(&self) -> Set<(u64, char)> {
        self.reader.opened()
    }

    /// The segments that the reader drops at its next clean-up.
    pub closed spec fn marked(&self) -> Set<(u64, char)> {
        self.reader.marked()
    }

    /// The count of uncompacted bytes from which a write starts a
    /// compaction.
    pub closed spec fn threshold(&self) -> u64 {
        self.compact_threshold
    }

    /// The size from which the compactor goes on in a new segment.
    pub closed spec fn segment_limit(&self) -> u64 {
        self.max_segment_size
    }

    /// The invariant of the store, but for the compaction lock: the
    /// directory is in replay order, the pending changes lead from the
    /// persisted files to it, the writer stands at the end of the
    /// active segment, every pointer of the key directory refers to a `Put`
    /// record of its key, and no segment has an id from the counter on.
    pub closed spec fn consistent(&self) -> bool {
        &&& self.folder.wf()
        &&& self.log_writer.log_state == LogState::Write
        &&& self.log_writer.attached(self.folder@)
        &&& forall|key: Seq<char>| #[trigger]
            self.key_dir@.contains_key(key) ==> points_at(self.folder@, key, self.key_dir@[key])
        &&& forall|id: u64, state: LogState| #[trigger]
            has_segment(self.folder@, id, state) ==> id < self.log_counter
    }

    /// The invariant of the store between two operations.
    pub open spec fn wf(&self) -> bool {
        self.consistent() && !self.compacting() && self.marked() == Set::<(u64, char)>::empty()
    }

    /// What opening a store on a directory gives: the directory with its
    /// active segment, the key directory and the count of uncompacted bytes
    /// that recovery finds in it, the writer at the end of the active
    /// segment, and the counter on the first free id.
    pub open spec fn opened_from(&self, segments: Seq<SegmentView>) -> bool {
        &&& self.wf()
        &&& self.segments() == opened_segments(segments)
        &&& self.pointers() == recover(segments).key_dir
        &&& self.uncompacted() == recover(segments).uncompacted
        &&& self.writer().log == active_log(segments)
        &&& self.next_log() == first_free_log(segments)
        &&& self.opened() == Set::<(u64, char)>::empty()
    }

    /// The changes to the files lead from the persisted files to the
    /// directory of the store.
    pub proof fn law_pending_changes(&self)
        requires
            self.wf(),
        ensures
            after_changes(self.persisted(), self.pending()) == files_of(self.segments()),
    {
    }

    /// The directory of the store is in replay order and holds the active
    /// segment, a write segment at whose end the writer stands; every
    /// segment id is below the first free id; and so a store can always be
    /// opened again on the directory, appending to a write segment that is
    /// there.
    pub proof fn law_writer_and_ids(&self)
        requires
            self.wf(),
        ensures
            in_replay_order(self.segments()),
            self.writer().log_state == LogState::Write,
            self.writer().attached(self.segments()),
            forall|id: u64, state: LogState| #[trigger]
                has_segment(self.segments(), id, state) ==> id < self.next_log(),
            last_write(self.segments()) is Some,
            can_open(self.segments()),
            opened_segments(self.segments()) == self.segments(),
    {
        let segments = self.segments();
        lemma_last_write(segments);
        lemma_greatest_id(segments);
        assert(has_segment(segments, self.writer().log, LogState::Write));
        let last = segments.len() - 1;
        assert(segments.len() > 0) by {
            assert(is_at(
                segments,
                index_of(segments, self.writer().log, LogState::Write),
                self.writer().log,
                LogState::Write,
            ));
        }
        assert(is_at(segments, last, segments[last].id, segments[last].state));
        assert(has_segment(segments, segments[last].id, segments[last].state));
    }

    /// Hands out the changes to the files since they were last taken,
    /// oldest first. Made in their order to the files as they were then,
    /// they give the files that stand for the directory of the store.
    pub fn take_changes(&mut self) -> (changes: Vec<DiskChange>)
        requires
            old(self).wf(),
        ensures
            final(self).wf(),
            changes@.map_values(|change: DiskChange| change@) == old(self).pending(),
            after_changes(old(self).persisted(), old(self).pending()) == files_of(
                final(self).segments(),
            ),
            final(self).persisted() == files_of(final(self).segments()),
            final(self).pending().len() == 0,
            final(self)@ == old(self)@,
            final(self).segments() == old(self).segments(),
            final(self).pointers() == old(self).pointers(),
            final(self).uncompacted() == old(self).uncompacted(),
            final(self).next_log() == old(self).next_log(),
            final(self).writer() == old(self).writer(),
            final(self).opened() == old(self).opened(),
            final(self).threshold() == old(self).threshold(),
            final(self).segment_limit() == old(self).segment_limit(),
    {
        self.folder.take_changes()
    }

    /// Opens a store on `folder` with the usual threshold and segment
    /// size. Fails with `Io` where no segment id is left.
    pub fn open(folder: Directory) -> (opened: Result<OptLogStructKvs, KvsError>)
        requires
            folder.wf(),
        ensures
            match opened {
                Ok(store) => {
                    &&& can_open(folder@)
                    &&& store.opened_from(folder@)
                    &&& store.recoverable()
                    &&& store.threshold() == COMPACT_THRESHOLD
                    &&& store.segment_limit() == MAX_SEGMENT_SIZE
                    &&& store.persisted() == folder.persisted()
                    &&& store.pending() == if last_write(folder@) is Some {
                        folder.pending()
                    } else {
                        folder.pending().push(
                            DiskChangeView::Create {
                                id: active_log(folder@) as u64,
                                state: LogState::Write,
                            },
                        )
                    }
                },
                Err(error) => error == KvsError::Io && !can_open(folder@),
            },
    {
        OptLogStructKvs::open_with(folder, COMPACT_THRESHOLD, MAX_SEGMENT_SIZE)
    }

    /// Opens a store on `folder`: rebuilds the key directory from the
    /// segments and appends to the last write segment, or to a new segment
    /// where there is none. Fails with `Io` where no segment id is left.
    pub fn open_with(folder: Directory, compact_threshold: u64, max_segment_size: u64) -> (opened:
        Result<OptLogStructKvs, KvsError>)
        requires
            folder.wf(),
        ensures
            match opened {
                Ok(store) => {
                    &&& can_open(folder@)
                    &&& store.opened_from(folder@)
                    &&& store.recoverable()
                    &&& store.threshold() == compact_threshold
                    &&& store.segment_limit() == max_segment_size
                    &&& store.persisted() == folder.persisted()
                    &&& store.pending() == if last_write(folder@) is Some {
                        folder.pending()
                    } else {
                        folder.pending().push(
                            DiskChangeView::Create {
                                id: active_log(folder@) as u64,
                                state: LogState::Write,
                            },
                        )
                    }
                },
                Err(error) => error == KvsError::Io && !can_open(folder@),
            },
    {
        let mut folder = folder;
        let ghost found = folder@;
        let (key_dir, uncompacted_size, greatest) = build_key_dir(&folder);
        let filenames = folder.keys();
        let mut write_log: Option<u64> = None;
        let mut i: usize = filenames.len();
        assert(found.subrange(0, found.len() as int) =~= found);
        while i > 0 && write_log.is_none()
            invariant
                i <= filenames@.len(),
                filenames@.len() == found.len(),
                forall|a: int|
                    0 <= a < filenames@.len() ==> (#[trigger] filenames@[a]) == (
                        found[a].id,
                        found[a].state,
                    ),
                last_write(found) == match write_log {
                    Some(id) => Some(id),
                    None => last_write(found.subrange(0, i as int)),
                },
            decreases i,
        {
            i = i - 1;
            let (id, state) = filenames[i];
            proof {
                let front = found.subrange(0, i + 1);
                assert(front.last() == found[i as int]);
                assert(front.drop_last() =~= found.subrange(0, i as int));
            }
            match state {
                LogState::Write => {
                    write_log = Some(id);
                },
                LogState::Compacted => {},
            }
        }
        proof {
            assert(last_write(found.subrange(0, 0)) is None);
            lemma_greatest_id(found);
            lemma_last_write(found);
            folder.lemma_sizes_fit();
            lemma_recovered_points(found, found.len() as int);
        }
        if greatest == u64::MAX {
            return Err(KvsError::Io);
        }
        let log = match write_log {
            Some(id) => id,
            None => {
                if filenames.len() == 0 {
                    0
                } else {
                    greatest + 1
                }
            },
        };
        if log == u64::MAX {
            return Err(KvsError::Io);
        }
        let log_counter = if write_log.is_some() {
            greatest + 1
        } else {
            log + 1
        };
        let log_writer = LogWriter::new(&mut folder, log, LogState::Write);
        proof {
            if write_log is None {
                if found.len() > 0 {
                    assert(key_before(found.last().id, found.last().state, log, LogState::Write));
                }
                assert(place_of(found, log, LogState::Write) == found.len());
                assert(folder@ =~= opened_segments(found));
            }
            lemma_opened_recover(found);
            assert forall|key: Seq<char>| #[trigger] key_dir@.contains_key(key) implies points_at(
                folder@,
                key,
                key_dir@[key],
            ) by {
                let pointer = key_dir@[key];
                assert(points_at(found, key, pointer));
                assert(data_of(found, pointer.log, pointer.log_state).is_prefix_of(
                    data_of(folder@, pointer.log, pointer.log_state),
                ));
                lemma_pointer_kept(found, folder@, key, pointer);
            }
        }
        Ok(
            OptLogStructKvs {
                log_writer,
                key_dir,
                folder,
                reader: LogReader::new(),
                log_counter,
                uncompacted_size,
                comp_lock: false,
                compact_threshold,
                max_segment_size,
            },
        )
    }

    /// The directory after `cmd` was appended to the active segment.
    pub open spec fn appended(&self, cmd: CommandView) -> Seq<SegmentView> {
        self.segments().update(
            index_of(self.segments(), self.writer().log, LogState::Write),
            SegmentView {
                id: self.writer().log,
                state: LogState::Write,
                data: data_of(self.segments(), self.writer().log, LogState::Write) + encode_command(
                    cmd,
                ),
            },
        )
    }

    /// The change to the files that appending `cmd` to the active segment
    /// makes.
    pub open spec fn append_of(&self, cmd: CommandView) -> DiskChangeView {
        DiskChangeView::Append {
            id: self.writer().log,
            state: LogState::Write,
            bytes: encode_command(cmd),
        }
    }

    /// The pointer to the record that the next append of `cmd` writes.
    pub open spec fn next_pointer(&self, cmd: CommandView) -> LogPointer {
        LogPointer {
            pos: self.writer().pos,
            size: command_size(cmd) as u64,
            log: self.writer().log,
            log_state: LogState::Write,
        }
    }

    /// The count of uncompacted bytes after `key` was set anew: the record
    /// that `key` pointed at, if any, has become garbage.
    pub open spec fn counter_after_set(&self, key: Seq<char>) -> u64 {
        if self.pointers().contains_key(key) {
            spec_add_size(self.uncompacted(), self.pointers()[key].size)
        } else {
            self.uncompacted()
        }
    }

    /// The count of uncompacted bytes after `key` was removed: the record
    /// that `key` pointed at and the `Rm` record itself are garbage.
    pub open spec fn counter_after_remove(&self, key: Seq<char>) -> u64 {
        spec_add_size(
            spec_add_size(self.uncompacted(), self.pointers()[key].size),
            command_size(CommandView::Rm { key }) as u64,
        )
    }

    /// Whether a count of uncompacted bytes starts a compaction: it has
    /// reached the threshold and a segment id is left to draw.
    pub open spec fn starts_compaction(&self, counter: u64) -> bool {
        counter >= self.threshold() && self.next_log() < u64::MAX - 1
    }

    /// What holds of the store after it appended `cmd` to the active
    /// segment of `before` and no compaction followed: the record stands at
    /// the end of that segment and is pending as a change to the files,
    /// the key directory is `pointers`, the count of uncompacted bytes is
    /// `counter`, and a store that was durable still is.
    pub open spec fn appended_to(
        &self,
        before: OptLogStructKvs,
        cmd: CommandView,
        pointers: Map<Seq<char>, LogPointer>,
        counter: u64,
    ) -> bool {
        &&& self.segments() == before.appended(cmd)
        &&& self.pending() == before.pending().push(before.append_of(cmd))
        &&& self.pointers() == pointers
        &&& self.uncompacted() == counter
        &&& self.next_log() == before.next_log()
        &&& self.writer().log == before.writer().log
        &&& self.opened() == before.opened()
        &&& (before.durable() ==> self.durable())
    }

    /// What holds of the store right after a compaction that began when
    /// the first free segment id was `first`, the reader had `opened`
    /// open, the key directory was `pointers`, the directory held
    /// `segments` and the changes `pending` waited to be made to the files.
    /// The directory holds the compacted segments and, behind them, the
    /// new active segment, at whose start the writer stands; it takes as
    /// many bytes as the live records; the store is durable; nothing
    /// counts as uncompacted; the reader has dropped the segments that the
    /// pointers referred to; and the changes to the files first make and
    /// fill the new segments and then delete the old ones.
    pub open spec fn compacted_at(
        &self,
        first: u64,
        opened: Set<(u64, char)>,
        pointers: Map<Seq<char>, LogPointer>,
        segments: Seq<SegmentView>,
        pending: Seq<DiskChangeView>,
    ) -> bool {
        &&& self.uncompacted() == 0
        &&& compacted_segments(self.segments(), first, self.segment_limit())
        &&& self.next_log() == first + self.segments().len()
        &&& self.writer() == (LogWriter {
            log: (first + self.segments().len() - 1) as u64,
            log_state: LogState::Write,
            pos: 0,
        })
        &&& self.durable()
        &&& total_size(self.segments()) == live_size(self.pointers())
        &&& self.opened() == opened.difference(live_handles(pointers))
        &&& compaction_changes(self.pending(), pending, segments, first)
    }

    /// Whether the next write starts a compaction: the count of
    /// uncompacted bytes has reached the threshold and a segment id is left
    /// to draw.
    pub open spec fn compaction_due(&self) -> bool {
        self.uncompacted() >= self.threshold() && self.next_log() < u64::MAX - 1
    }

    /// The value stored under `key`, or `None` where the store has none.
    pub fn get(&mut self, key: String) -> (found: Result<Option<String>, KvsError>)
        requires
            old(self).wf(),
        ensures
            final(self).wf(),
            final(self)@ == old(self)@,
            final(self).segments() == old(self).segments(),
            final(self).pointers() == old(self).pointers(),
            final(self).uncompacted() == old(self).uncompacted(),
            final(self).next_log() == old(self).next_log(),
            final(self).writer() == old(self).writer(),
            final(self).threshold() == old(self).threshold(),
            final(self).segment_limit() == old(self).segment_limit(),
            final(self).persisted() == old(self).persisted(),
            final(self).pending() == old(self).pending(),
            final(self).opened() == if old(self).pointers().contains_key(key@) {
                old(self).opened().insert(
                    handle_key(
                        old(self).pointers()[key@].log,
                        old(self).pointers()[key@].log_state,
                    ),
                )
            } else {
                old(self).opened()
            },
            match found {
                Ok(Some(value)) => old(self)@.contains_key(key@) && value@ == old(self)@[key@],
                Ok(None) => !old(self)@.contains_key(key@),
                Err(_) => false,
            },
    {
        match self.key_dir.get(key.as_str()) {
            Some(log_pointer) => {
                match self.reader.deserialize(&self.folder, &log_pointer) {
                    Ok(cmd) => value_of_record(cmd),
                    Err(error) => Err(error),
                }
            },
            None => Ok(None),
        }
    }

    /// Stores `value` under `key`, in place of any value that `key` had.
    pub fn set(&mut self, key: String, value: String) -> (done: Result<(), KvsError>)
        requires
            old(self).wf(),
        ensures
            final(self).wf(),
            done is Ok,
            final(self)@ == old(self)@.insert(key@, value@),
            final(self).threshold() == old(self).threshold(),
            final(self).segment_limit() == old(self).segment_limit(),
            final(self).persisted() == old(self).persisted(),
            if old(self).starts_compaction(old(self).counter_after_set(key@)) {
                final(self).compacted_at(
                    old(self).next_log(),
                    old(self).opened(),
                    old(self).pointers().insert(
                        key@,
                        old(self).next_pointer(CommandView::Put { key: key@, value: value@ }),
                    ),
                    old(self).appended(CommandView::Put { key: key@, value: value@ }),
                    old(self).pending().push(
                        old(self).append_of(CommandView::Put { key: key@, value: value@ }),
                    ),
                )
            } else {
                final(self).appended_to(
                    *old(self),
                    CommandView::Put { key: key@, value: value@ },
                    old(self).pointers().insert(
                        key@,
                        old(self).next_pointer(CommandView::Put { key: key@, value: value@ }),
                    ),
                    old(self).counter_after_set(key@),
                )
            },
    {
        let ghost key_view = key@;
        let ghost value_view = value@;
        let cmd = Command::Put { key, value };
        let pos = self.log_writer.pos;
        let log = self.log_writer.log;
        let size = match self.log_writer.write_cmd(&mut self.folder, &cmd) {
            Ok(size) => size,
            Err(error) => {
                return Err(error);
            },
        };
        let log_pointer = LogPointer { pos, size, log, log_state: LogState::Write };
        let key = crate::common::extract_key_from_cmd(cmd);
        proof {
            let start = data_of(old(self).segments(), log, LogState::Write);
            lemma_appended_record(self.segments(), cmd@, log_pointer, start);
            assert forall|other: Seq<char>| #[trigger]
                old(self).pointers().contains_key(other) implies points_at(
                self.segments(),
                other,
                old(self).pointers()[other],
            ) && value_at(self.segments(), old(self).pointers()[other]) == value_at(
                old(self).segments(),
                old(self).pointers()[other],
            ) by {
                let pointer = old(self).pointers()[other];
                assert(start.is_prefix_of(start + encode_command(cmd@)));
                lemma_pointer_kept(old(self).segments(), self.segments(), other, pointer);
            }
        }
        match self.key_dir.insert(key, log_pointer) {
            Some(old_entry) => {
                self.uncompacted_size = add_size(self.uncompacted_size, old_entry.size);
            },
            None => {},
        }
        assert(self@ =~= old(self)@.insert(key_view, value_view));
        proof {
            let at = index_of(old(self).segments(), log, LogState::Write);
            assert(is_at(old(self).segments(), at, log, LogState::Write));
            if old(self).durable() {
                crate::engine::replay::lemma_recover_append(old(self).segments(), at, cmd@);
                crate::engine::replay::lemma_recover_appended(
                    old(self).segments()[at].data,
                    0,
                    log,
                    LogState::Write,
                    nothing_recovered(),
                    cmd@,
                );
                assert(is_at(self.segments(), at, log, LogState::Write));
                lemma_unique_place(self.segments(), at, log, LogState::Write);
                assert(empty_from(self.segments(), at + 1)) by {
                    assert forall|i: int| at + 1 <= i < self.segments().len() implies (
                    #[trigger] self.segments()[i]).data.len() == 0 by {
                        assert(self.segments()[i] == old(self).segments()[i]);
                    }
                }
                assert(self.pointers() =~= recover(self.segments()).key_dir);
            }
        }
        self.update_uncompacted_size()
    }

    /// Deletes `key`. Fails with `KeyNotFound`, changing nothing, where the
    /// store has no such key.
    pub fn remove(&mut self, key: String) -> (done: Result<(), KvsError>)
        requires
            old(self).wf(),
        ensures
            final(self).wf(),
            match done {
                Ok(_) => {
                    &&& old(self)@.contains_key(key@)
                    &&& final(self)@ == old(self)@.remove(key@)
                    &&& if old(self).starts_compaction(old(self).counter_after_remove(key@)) {
                        final(self).compacted_at(
                            old(self).next_log(),
                            old(self).opened(),
                            old(self).pointers().remove(key@),
                            old(self).appended(CommandView::Rm { key: key@ }),
                            old(self).pending().push(
                                old(self).append_of(CommandView::Rm { key: key@ }),
                            ),
                        )
                    } else {
                        final(self).appended_to(
                            *old(self),
                            CommandView::Rm { key: key@ },
                            old(self).pointers().remove(key@),
                            old(self).counter_after_remove(key@),
                        )
                    }
                },
                Err(error) => {
                    &&& error == KvsError::KeyNotFound
                    &&& !old(self)@.contains_key(key@)
                    &&& final(self)@ == old(self)@
                    &&& final(self).segments() == old(self).segments()
                    &&& final(self).pointers() == old(self).pointers()
                    &&& final(self).uncompacted() == old(self).uncompacted()
                    &&& final(self).next_log() == old(self).next_log()
                    &&& final(self).writer() == old(self).writer()
                    &&& final(self).opened() == old(self).opened()
                    &&& final(self).pending() == old(self).pending()
                },
            },
            final(self).persisted() == old(self).persisted(),
            final(self).threshold() == old(self).threshold(),
            final(self).segment_limit() == old(self).segment_limit(),
    {
        if !self.key_dir.contains_key(key.as_str()) {
            return Err(KvsError::KeyNotFound);
        }
        let ghost key_view = key@;
        let cmd = Command::Rm { key };
        let log = self.log_writer.log;
        let size = match self.log_writer.write_cmd(&mut self.folder, &cmd) {
            Ok(size) => size,
            Err(error) => {
                return Err(error);
            },
        };
        let key = crate::common::extract_key_from_cmd(cmd);
        proof {
            let start = data_of(old(self).segments(), log, LogState::Write);
            assert forall|other: Seq<char>| #[trigger]
                old(self).pointers().contains_key(other) implies points_at(
                self.segments(),
                other,
                old(self).pointers()[other],
            ) && value_at(self.segments(), old(self).pointers()[other]) == value_at(
                old(self).segments(),
                old(self).pointers()[other],
            ) by {
                let pointer = old(self).pointers()[other];
                assert(start.is_prefix_of(start + encode_command(cmd@)));
                lemma_pointer_kept(old(self).segments(), self.segments(), other, pointer);
            }
        }
        match self.key_dir.remove(key.as_str()) {
            Some(old_entry) => {
                self.uncompacted_size = add_size(
                    add_size(self.uncompacted_size, old_entry.size),
                    size,
                );
            },
            None => {},
        }
        assert(self@ =~= old(self)@.remove(key_view));
        proof {
            let at = index_of(old(self).segments(), log, LogState::Write);
            assert(is_at(old(self).segments(), at, log, LogState::Write));
            if old(self).durable() {
                crate::engine::replay::lemma_recover_append(old(self).segments(), at, cmd@);
                crate::engine::replay::lemma_recover_appended(
                    old(self).segments()[at].data,
                    0,
                    log,
                    LogState::Write,
                    nothing_recovered(),
                    cmd@,
                );
                assert(is_at(self.segments(), at, log, LogState::Write));
                lemma_unique_place(self.segments(), at, log, LogState::Write);
                assert(empty_from(self.segments(), at + 1)) by {
                    assert forall|i: int| at + 1 <= i < self.segments().len() implies (
                    #[trigger] self.segments()[i]).data.len() == 0 by {
                        assert(self.segments()[i] == old(self).segments()[i]);
                    }
                }
                assert(self.pointers() =~= recover(self.segments()).key_dir);
            }
        }
        self.update_uncompacted_size()
    }

    /// The directory of the store.
    pub fn folder(&self) -> (folder: &Directory)
        requires
            self.wf(),
        ensures
            folder@ == self.segments(),
            folder.persisted() == self.persisted(),
            folder.pending() == self.pending(),
            folder.wf(),
    {
        &self.folder
    }

    /// Closes the store and hands out its directory.
    pub fn close(self) -> (folder: Directory)
        requires
            self.wf(),
        ensures
            folder@ == self.segments(),
            folder.persisted() == self.persisted(),
            folder.pending() == self.pending(),
            folder.wf(),
    {
        self.folder
    }

    /// The count of bytes taken by records that are no longer live.
    pub fn uncompacted_size(&self) -> (size: u64)
        ensures
            size == self.uncompacted(),
    {
        self.uncompacted_size
    }

    /// The segments that the store's reader has opened and not yet
    /// dropped, each as its id and the flag of its state.
    pub fn opened_segments(&self) -> (items: Vec<(u64, char)>)
        ensures
            forall|item: (u64, char)| items@.contains(item) == self.opened().contains(item),
    {
        self.reader.opened_segments()
    }

    /// Whether every segment that is replayed after the active one is
    /// empty, so that what is appended next is replayed last.
    pub fn tail_is_empty(&self) -> (empty: bool)
        requires
            self.wf(),
        ensures
            empty == self.tail_empty(),
    {
        let count = self.folder.len();
        let ghost active = index_of(self.folder@, self.log_writer.log, LogState::Write);
        assert(is_at(self.folder@, active, self.log_writer.log, LogState::Write));
        let mut i: usize = count;
        while i > 0
            invariant
                i <= count,
                count == self.folder@.len(),
                self.folder.wf(),
                is_at(self.folder@, active, self.log_writer.log, LogState::Write),
                active < i,
                forall|k: int| i <= k < count ==> (#[trigger] self.folder@[k]).data.len() == 0,
            decreases i,
        {
            let segment = self.folder.segment(i - 1);
            let is_active = segment.id == self.log_writer.log && match segment.state {
                LogState::Write => true,
                LogState::Compacted => false,
            };
            if is_active {
                proof {
                    lemma_unique_place(
                        self.folder@,
                        i - 1,
                        self.log_writer.log,
                        LogState::Write,
                    );
                }
                return true;
            }
            if segment.data.len() != 0 {
                proof {
                    assert(self.folder@[i - 1].data.len() != 0);
                }
                return false;
            }
            i = i - 1;
        }
        true
    }

    /// The pointer of `key`, if the store holds the key.
    pub fn pointer_of(&self, key: &str) -> (found: Option<LogPointer>)
        ensures
            found == if self.pointers().contains_key(key@) {
                Some(self.pointers()[key@])
            } else {
                None
            },
    {
        self.key_dir.get(key)
    }

    /// Compacts the log now, whatever the count of uncompacted bytes,
    /// where a segment id is left for it. Returns whether it did. The store
    /// holds the same map afterwards.
    pub fn compact(&mut self) -> (compacted: Result<bool, KvsError>)
        requires
            old(self).wf(),
        ensures
            final(self).wf(),
            compacted is Ok,
            compacted->Ok_0 == (old(self).next_log() < u64::MAX - 1),
            final(self)@ == old(self)@,
            final(self).threshold() == old(self).threshold(),
            final(self).segment_limit() == old(self).segment_limit(),
            final(self).persisted() == old(self).persisted(),
            if old(self).next_log() < u64::MAX - 1 {
                final(self).compacted_at(
                    old(self).next_log(),
                    old(self).opened(),
                    old(self).pointers(),
                    old(self).segments(),
                    old(self).pending(),
                )
            } else {
                &&& final(self).segments() == old(self).segments()
                &&& final(self).pointers() == old(self).pointers()
                &&& final(self).uncompacted() == old(self).uncompacted()
                &&& final(self).next_log() == old(self).next_log()
                &&& final(self).writer() == old(self).writer()
                &&& final(self).opened() == old(self).opened()
                &&& final(self).pending() == old(self).pending()
            },
    {
        if !self.comp_lock && self.log_counter < u64::MAX - 1 {
            self.comp_lock = true;
            let done = self.compact_logs();
            self.comp_lock = false;
            match done {
                Ok(_) => Ok(true),
                Err(error) => Err(error),
            }
        } else {
            Ok(false)
        }
    }

    /// Starts a compaction where one is due and none is under way.
    fn update_uncompacted_size(&mut self) -> (done: Result<(), KvsError>)
        requires
            old(self).wf(),
        ensures
            final(self).wf(),
            done is Ok,
            final(self)@ == old(self)@,
            final(self).threshold() == old(self).threshold(),
            final(self).segment_limit() == old(self).segment_limit(),
            final(self).persisted() == old(self).persisted(),
            !old(self).compaction_due() ==> {
                &&& final(self).pending() == old(self).pending()
                &&& final(self).segments() == old(self).segments()
                &&& final(self).pointers() == old(self).pointers()
                &&& final(self).uncompacted() == old(self).uncompacted()
                &&& final(self).next_log() == old(self).next_log()
                &&& final(self).writer() == old(self).writer()
                &&& final(self).opened() == old(self).opened()
            },
            old(self).compaction_due() ==> final(self).compacted_at(
                old(self).next_log(),
                old(self).opened(),
                old(self).pointers(),
                old(self).segments(),
                old(self).pending(),
            ),
    {
        if self.uncompacted_size >= self.compact_threshold && !self.comp_lock && self.log_counter
            < u64::MAX - 1 {
            self.comp_lock = true;
            let done = self.compact_logs();
            self.comp_lock = false;
            done
        } else {
            Ok(())
        }
    }
}

impl OptLogStructKvs {
    /// Whether opening a store on the directory as it stands would find
    /// the key directory as it stands.
    pub open spec fn recoverable(&self) -> bool {
        recover(self.segments()).key_dir == self.pointers()
    }

    /// Whether the active segment holds records and nothing else.
    pub open spec fn active_clean(&self) -> bool {
        clean_from(data_of(self.segments(), self.writer().log, LogState::Write), 0)
    }

    /// Whether every segment that is replayed after the active one is
    /// empty.
    pub open spec fn tail_empty(&self) -> bool {
        empty_from(
            self.segments(),
            index_of(self.segments(), self.writer().log, LogState::Write) + 1,
        )
    }

    /// Whether the store is recoverable and stays so when it appends to its
    /// active segment.
    pub open spec fn durable(&self) -> bool {
        self.recoverable() && self.active_clean() && self.tail_empty()
    }
}

impl OptLogStructKvs {
    /// The keys that the store holds are the keys of its key directory,
    /// and the pointer of each refers to a `Put` record of that key, whose
    /// value is the value that the store holds for it.
    pub proof fn law_live_keys(&self)
        requires
            self.wf(),
        ensures
            self@.dom() == self.pointers().dom(),
            forall|key: Seq<char>| #[trigger]
                self@.contains_key(key) ==> points_at(self.segments(), key, self.pointers()[key])
                    && self@[key] == value_at(self.segments(), self.pointers()[key]),
            self.recoverable() ==> self@.dom() == recover(self.segments()).key_dir.dom(),
    {
        assert(self@.dom() =~= self.pointers().dom());
    }

    /// A store that is opened on the directory of a recoverable store
    /// holds the same map: every key is read with the value that it was
    /// last set to, and a key that was removed is not read.
    pub proof fn law_reopen(&self, reopened: &OptLogStructKvs)
        requires
            self.wf(),
            self.recoverable(),
            reopened.opened_from(self.segments()),
        ensures
            reopened@ == self@,
            reopened.pointers() == self.pointers(),
    {
        let before = self.segments();
        let after = reopened.segments();
        assert(grown_from(before, after)) by {
            assert forall|id: u64, state: LogState| #[trigger]
                has_segment(before, id, state) implies has_segment(after, id, state) && data_of(
                before,
                id,
                state,
            ).is_prefix_of(data_of(after, id, state)) by {
                let at = index_of(before, id, state);
                assert(is_at(before, at, id, state));
                assert(is_at(after, at, id, state));
                lemma_unique_place(after, at, id, state);
                lemma_unique_place(before, at, id, state);
            }
        }
        lemma_pointers_kept(before, after, self.pointers());
        assert(reopened@ =~= self@);
    }

    /// A store that is opened on the directory of a durable store is
    /// durable again and holds the same map. So what was written through
    /// any run of operations and reopenings that began on an empty
    /// directory is read back after the next opening.
    pub proof fn law_reopen_durable(&self, reopened: &OptLogStructKvs)
        requires
            self.wf(),
            self.durable(),
            reopened.opened_from(self.segments()),
        ensures
            reopened@ == self@,
            reopened.durable(),
    {
        self.law_reopen(reopened);
        self.law_writer_and_ids();
        let segments = self.segments();
        let at = index_of(segments, self.writer().log, LogState::Write);
        assert(is_at(segments, at, self.writer().log, LogState::Write));
        lemma_unique_place(segments, at, self.writer().log, LogState::Write);
        crate::engine::opening::lemma_last_write_place(segments);
        let active = reopened.writer().log;
        let place = index_of(segments, active, LogState::Write);
        assert(is_at(segments, place, active, LogState::Write));
        lemma_unique_place(segments, place, active, LogState::Write);
        assert(at <= place);
        if at < place {
            assert(segments[place].data.len() == 0);
        }
        assert(empty_from(segments, place + 1)) by {
            assert forall|i: int| place + 1 <= i < segments.len() implies (
            #[trigger] segments[i]).data.len() == 0 by {}
        }
    }

    /// A store that is opened on an empty directory holds nothing and is
    /// durable, and an empty directory can always be opened.
    pub proof fn law_open_empty(opened: &OptLogStructKvs)
        requires
            opened.opened_from(Seq::<SegmentView>::empty()),
        ensures
            can_open(Seq::<SegmentView>::empty()),
            opened@ == crate::engine::nothing_held(),
            opened.uncompacted() == 0,
            opened.durable(),
    {
        assert(opened@ =~= crate::engine::nothing_held());
        lemma_opened_recover(Seq::<SegmentView>::empty());
        let segments = opened.segments();
        assert(is_at(segments, 0, 0, LogState::Write));
        lemma_unique_place(segments, 0, 0, LogState::Write);
    }

    /// The directory of the store after the process was killed while it
    /// appended `cmd`: only the first `cut` bytes of the record have
    /// reached the active segment.
    pub open spec fn torn_by(&self, cmd: CommandView, cut: int) -> Seq<SegmentView> {
        self.segments().update(
            index_of(self.segments(), self.writer().log, LogState::Write),
            SegmentView {
                id: self.writer().log,
                state: LogState::Write,
                data: data_of(self.segments(), self.writer().log, LogState::Write)
                    + encode_command(cmd).subrange(0, cut),
            },
        )
    }

    /// A store that is opened after a durable store was killed in the
    /// middle of an append holds what that store held before the append:
    /// every key is read with its last committed value, and nothing of the
    /// torn record is read.
    pub proof fn law_crash_reopen(&self, reopened: &OptLogStructKvs, cmd: CommandView, cut: int)
        requires
            self.wf(),
            self.durable(),
            command_fits(cmd),
            0 <= cut < encode_command(cmd).len(),
            reopened.opened_from(self.torn_by(cmd, cut)),
        ensures
            can_open(self.torn_by(cmd, cut)),
            reopened@ == self@,
            reopened.pointers() == self.pointers(),
    {
        let before = self.segments();
        let torn = self.torn_by(cmd, cut);
        let tail = encode_command(cmd).subrange(0, cut);
        let at = index_of(before, self.writer().log, LogState::Write);
        self.law_writer_and_ids();
        assert(is_at(before, at, self.writer().log, LogState::Write));
        lemma_unique_place(before, at, self.writer().log, LogState::Write);
        crate::engine::replay::lemma_cut_record(cmd, cut);
        crate::engine::replay::lemma_recover_torn_at(before, at, tail);
        crate::engine::opening::lemma_last_write_of_keys(before, torn);
        assert(crate::engine::replay::greatest_id(torn) == crate::engine::replay::greatest_id(
            before,
        ));
        let after = reopened.segments();
        assert(after == torn);
        assert(grown_from(before, after)) by {
            assert forall|id: u64, state: LogState| #[trigger]
                has_segment(before, id, state) implies has_segment(after, id, state) && data_of(
                before,
                id,
                state,
            ).is_prefix_of(data_of(after, id, state)) by {
                let place = index_of(before, id, state);
                assert(is_at(before, place, id, state));
                assert(is_at(after, place, id, state));
                lemma_unique_place(after, place, id, state);
                lemma_unique_place(before, place, id, state);
                if place == at {
                    assert(before[at].data.is_prefix_of(before[at].data + tail));
                }
            }
        }
        lemma_pointers_kept(before, after, self.pointers());
        assert(reopened@ =~= self@);
    }

    /// Opening the directory after a compaction gives the map that opening
    /// it before the compaction gave.
    pub proof fn law_compaction_reopen(
        before: &OptLogStructKvs,
        after: &OptLogStructKvs,
        opened_before: &OptLogStructKvs,
        opened_after: &OptLogStructKvs,
    )
        requires
            before.wf(),
            before.recoverable(),
            after.wf(),
            after.recoverable(),
            after@ == before@,
            opened_before.opened_from(before.segments()),
            opened_after.opened_from(after.segments()),
        ensures
            opened_after@ == opened_before@,
    {
        before.law_reopen(opened_before);
        after.law_reopen(opened_after);
    }
}

impl KvsEngine for OptLogStructKvs {
    open spec fn contents(&self) -> Map<Seq<char>, Seq<char>> {
        self@
    }

    open spec fn valid(&self) -> bool {
        self.wf()
    }

    /// Stores `value` under `key`. This store never refuses a `set`: the
    /// record is appended to the active segment, the key points at it,
    /// and a compaction follows where one is due.
    fn set(&mut self, key: String, value: String) -> (done: Result<(), KvsError>)
        ensures
            done is Ok,
            final(self)@ == old(self)@.insert(key@, value@),
            final(self).threshold() == old(self).threshold(),
            final(self).segment_limit() == old(self).segment_limit(),
            final(self).persisted() == old(self).persisted(),
            if old(self).starts_compaction(old(self).counter_after_set(key@)) {
                final(self).compacted_at(
                    old(self).next_log(),
                    old(self).opened(),
                    old(self).pointers().insert(
                        key@,
                        old(self).next_pointer(CommandView::Put { key: key@, value: value@ }),
                    ),
                    old(self).appended(CommandView::Put { key: key@, value: value@ }),
                    old(self).pending().push(
                        old(self).append_of(CommandView::Put { key: key@, value: value@ }),
                    ),
                )
            } else {
                final(self).appended_to(
                    *old(self),
                    CommandView::Put { key: key@, value: value@ },
                    old(self).pointers().insert(
                        key@,
                        old(self).next_pointer(CommandView::Put { key: key@, value: value@ }),
                    ),
                    old(self).counter_after_set(key@),
                )
            },
    {
        OptLogStructKvs::set(self, key, value)
    }

    /// Reads the value of `key`. This store never fails to read: it gives
    /// the value that the key's pointer leads to, or `None` where the key
    /// has no pointer, and changes nothing but what its reader has opened.
    fn get(&mut self, key: String) -> (found: Result<Option<String>, KvsError>)
        ensures
            found is Ok,
            match found {
                Ok(Some(value)) => old(self)@.contains_key(key@) && value@ == old(self)@[key@],
                Ok(None) => !old(self)@.contains_key(key@),
                Err(_) => false,
            },
            final(self).segments() == old(self).segments(),
            final(self).pointers() == old(self).pointers(),
            final(self).uncompacted() == old(self).uncompacted(),
            final(self).next_log() == old(self).next_log(),
            final(self).writer() == old(self).writer(),
            final(self).threshold() == old(self).threshold(),
            final(self).segment_limit() == old(self).segment_limit(),
            final(self).persisted() == old(self).persisted(),
            final(self).pending() == old(self).pending(),
            final(self).opened() == if old(self).pointers().contains_key(key@) {
                old(self).opened().insert(
                    handle_key(
                        old(self).pointers()[key@].log,
                        old(self).pointers()[key@].log_state,
                    ),
                )
            } else {
                old(self).opened()
            },
    {
        OptLogStructKvs::get(self, key)
    }

    /// Deletes `key`. This store refuses a `remove` only where it does not
    /// hold the key: otherwise an `Rm` record is appended to the active
    /// segment, the key loses its pointer, and a compaction follows where
    /// one is due.
    fn remove(&mut self, key: String) -> (done: Result<(), KvsError>)
        ensures
            done is Ok == old(self)@.contains_key(key@),
            match done {
                Ok(_) => {
                    &&& final(self)@ == old(self)@.remove(key@)
                    &&& if old(self).starts_compaction(old(self).counter_after_remove(key@)) {
                        final(self).compacted_at(
                            old(self).next_log(),
                            old(self).opened(),
                            old(self).pointers().remove(key@),
                            old(self).appended(CommandView::Rm { key: key@ }),
                            old(self).pending().push(
                                old(self).append_of(CommandView::Rm { key: key@ }),
                            ),
                        )
                    } else {
                        final(self).appended_to(
                            *old(self),
                            CommandView::Rm { key: key@ },
                            old(self).pointers().remove(key@),
                            old(self).counter_after_remove(key@),
                        )
                    }
                },
                Err(error) => {
                    &&& error == KvsError::KeyNotFound
                    &&& final(self).segments() == old(self).segments()
                    &&& final(self).pointers() == old(self).pointers()
                    &&& final(self).uncompacted() == old(self).uncompacted()
                    &&& final(self).next_log() == old(self).next_log()
                    &&& final(self).writer() == old(self).writer()
                    &&& final(self).opened() == old(self).opened()
                    &&& final(self).pending() == old(self).pending()
                },
            },
            final(self).threshold() == old(self).threshold(),
            final(self).segment_limit() == old(self).segment_limit(),
            final(self).persisted() == old(self).persisted(),
    {
        OptLogStructKvs::remove(self, key)
    }
}

/// The value of a record that a pointer of the key directory led to. Fails
/// with `UnexpectedCommandType` where the record is no `Put`.
pub fn value_of_record(cmd: Command) -> (value: Result<Option<String>, KvsError>)
    ensures
        match value {
            Ok(Some(text)) => cmd@ matches CommandView::Put { key, value } && text@ == value,
            Ok(None) => false,
            Err(error) => error == KvsError::UnexpectedCommandType && !(cmd@ is Put),
        },
{
    match cmd {
        Command::Put { key: _, value } => Ok(Some(value)),
        _ => Err(KvsError::UnexpectedCommandType),
    }
}

} // verus!
