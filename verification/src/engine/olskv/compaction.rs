//! Compaction: the live records are copied into fresh segments, key by
//! key, the pointers are moved to the copies, and the segments that were
//! there before are deleted.

use crate::common::CommandView;
use crate::engine::directory::{
    data_of,
    has_segment,
    is_at,
    key_before,
    lemma_unique_place,
    DiskChangeView,
    SegmentView,
};
use crate::engine::keydir::LogPointer;
use crate::engine::olskv::{
    compacted_segments,
    compaction_changes,
    fresh_changes,
    removals_of,
    OptLogStructKvs,
};
use crate::engine::pointers::{
    grown_from,
    lemma_appended_record,
    lemma_pointed_record,
    lemma_pointer_kept,
    lemma_pointers_kept,
    lemma_sizes_sum_is_live_size,
    lemma_sizes_sum_same,
    lemma_total_size_update,
    live_handles,
    live_size,
    points_at,
    sizes_sum,
    stored_map,
    total_size,
    value_at,
};
use crate::engine::reader::handle_key;
use crate::engine::record::{command_fits, command_size, encode_command, lemma_decode_encoded};
use crate::engine::replay::{clean_from, empty_from, nothing_recovered, recover, recover_put};
use crate::engine::segment::LogState;
use crate::engine::writer::LogWriter;
use crate::error::KvsError;
use vstd::prelude::*;

verus! {

/// The course of a compaction: what the store held when it began, the
/// segments made since, and how far the keys have been moved.
pub struct Migration {
    /// The segments at the start, which are deleted at the end.
    pub start_segments: Seq<SegmentView>,
    /// The key directory at the start.
    pub start_pointers: Map<Seq<char>, LogPointer>,
    /// The changes to the files that were pending at the start.
    pub start_pending: Seq<DiskChangeView>,
    /// The segments made by this compaction, in replay order.
    pub fresh: Seq<SegmentView>,
    /// The keys to move, each once.
    pub keys: Seq<Seq<char>>,
    /// How many of the keys have been moved.
    pub done: int,
    /// The id of the first compacted segment.
    pub new_log: u64,
    /// The place, among the fresh segments, of the compacted segment that
    /// records are copied to.
    pub target: int,
}

/// The segments that the keys moved so far pointed into at the start of a
/// compaction, as the reader files them.
pub open spec fn moved_handles(m: Migration) -> Set<(u64, char)> {
    Set::new(
        |handle: (u64, char)|
            exists|a: int|
                0 <= a < m.done && handle == handle_key(
                    m.start_pointers[#[trigger] m.keys[a]].log,
                    m.start_pointers[m.keys[a]].log_state,
                ),
    )
}

/// Moving one more key adds the segment that it pointed into.
pub proof fn lemma_moved_handles_step(m: Migration)
    requires
        0 <= m.done < m.keys.len(),
    ensures
        moved_handles(Migration { done: m.done + 1, ..m }) == moved_handles(m).insert(
            handle_key(
                m.start_pointers[m.keys[m.done]].log,
                m.start_pointers[m.keys[m.done]].log_state,
            ),
        ),
{
    let next = Migration { done: m.done + 1, ..m };
    let added = handle_key(
        m.start_pointers[m.keys[m.done]].log,
        m.start_pointers[m.keys[m.done]].log_state,
    );
    assert forall|handle: (u64, char)|
        moved_handles(next).contains(handle) == moved_handles(m).insert(added).contains(
            handle,
        ) by {
        if moved_handles(next).contains(handle) {
            let a = choose|a: int|
                0 <= a < next.done && handle == handle_key(
                    next.start_pointers[#[trigger] next.keys[a]].log,
                    next.start_pointers[next.keys[a]].log_state,
                );
            if a < m.done {
                assert(handle == handle_key(
                    m.start_pointers[m.keys[a]].log,
                    m.start_pointers[m.keys[a]].log_state,
                ));
            }
        }
        if moved_handles(m).contains(handle) {
            let a = choose|a: int|
                0 <= a < m.done && handle == handle_key(
                    m.start_pointers[#[trigger] m.keys[a]].log,
                    m.start_pointers[m.keys[a]].log_state,
                );
            assert(handle == handle_key(
                next.start_pointers[next.keys[a]].log,
                next.start_pointers[next.keys[a]].log_state,
            ));
        }
        if handle == added {
            assert(handle == handle_key(
                next.start_pointers[next.keys[m.done]].log,
                next.start_pointers[next.keys[m.done]].log_state,
            ));
        }
    }
    assert(moved_handles(next) =~= moved_handles(m).insert(added));
}

/// Once every key is moved, the segments moved from are the segments that
/// the key directory of the start referred to.
pub proof fn lemma_moved_handles_end(m: Migration)
    requires
        m.done == m.keys.len(),
        forall|a: int|
            0 <= a < m.keys.len() ==> m.start_pointers.contains_key(#[trigger] m.keys[a]),
        forall|key: Seq<char>| #[trigger]
            m.start_pointers.contains_key(key) ==> exists|a: int|
                0 <= a < m.keys.len() && #[trigger] m.keys[a] == key,
    ensures
        moved_handles(m) == live_handles(m.start_pointers),
{
    assert forall|handle: (u64, char)|
        moved_handles(m).contains(handle) == live_handles(m.start_pointers).contains(handle) by {
        if moved_handles(m).contains(handle) {
            let a = choose|a: int|
                0 <= a < m.done && handle == handle_key(
                    m.start_pointers[#[trigger] m.keys[a]].log,
                    m.start_pointers[m.keys[a]].log_state,
                );
            assert(m.start_pointers.contains_key(m.keys[a]));
        }
        if live_handles(m.start_pointers).contains(handle) {
            let key = choose|key: Seq<char>| #[trigger]
                m.start_pointers.contains_key(key) && handle == handle_key(
                    m.start_pointers[key].log,
                    m.start_pointers[key].log_state,
                );
            let a = choose|a: int| 0 <= a < m.keys.len() && #[trigger] m.keys[a] == key;
            assert(handle == handle_key(
                m.start_pointers[m.keys[a]].log,
                m.start_pointers[m.keys[a]].log_state,
            ));
        }
    }
    assert(moved_handles(m) =~= live_handles(m.start_pointers));
}

/// Whether the fresh segments of a compaction hold what was copied so
/// far and nothing else: recovery finds in them the pointers of the moved
/// keys, they take as many bytes as the records of the moved keys, every
/// pointer has the record size that it had at the start, and the segment
/// that is copied to holds records only and has only empty segments behind
/// it.
#[verifier::opaque]
pub open spec fn copies_recorded(pointers: Map<Seq<char>, LogPointer>, m: Migration) -> bool {
    &&& forall|a: int|
        0 <= a < m.done ==> {
            &&& pointers[#[trigger] m.keys[a]].log >= m.new_log
            &&& recover(m.fresh).key_dir.contains_key(m.keys[a])
            &&& recover(m.fresh).key_dir[m.keys[a]] == pointers[m.keys[a]]
        }
    &&& forall|key: Seq<char>| #[trigger]
        recover(m.fresh).key_dir.contains_key(key) ==> exists|a: int|
            0 <= a < m.done && #[trigger] m.keys[a] == key
    &&& forall|key: Seq<char>| #[trigger]
        pointers.contains_key(key) ==> pointers[key].size == m.start_pointers[key].size
    &&& total_size(m.fresh) == sizes_sum(m.keys, m.start_pointers, m.done)
    &&& 0 <= m.target < m.fresh.len()
    &&& clean_from(m.fresh[m.target].data, 0)
    &&& empty_from(m.fresh, m.target + 1)
}

/// At the start of a compaction nothing is copied.
pub proof fn lemma_copies_begin(m: Migration)
    requires
        m.done == 0,
        m.target == 0,
        m.fresh.len() == 1,
        m.fresh[0].data.len() == 0,
    ensures
        copies_recorded(m.start_pointers, m),
{
    reveal(copies_recorded);
    let none = Seq::<SegmentView>::empty();
    assert(recover(none) == nothing_recovered());
    crate::engine::replay::lemma_recover_insert_empty(none, 0, m.fresh[0]);
    assert(none.insert(0, m.fresh[0]) =~= m.fresh);
    assert(recover(m.fresh) == nothing_recovered());
    assert(total_size(none) == 0);
    assert(m.fresh.drop_last() =~= none);
    assert(total_size(m.fresh) == 0);
}

/// Going on in a new, empty segment changes nothing of what was copied.
pub proof fn lemma_copies_roll(pointers: Map<Seq<char>, LogPointer>, m: Migration, added: SegmentView)
    requires
        copies_recorded(pointers, m),
        added.data.len() == 0,
    ensures
        copies_recorded(
            pointers,
            Migration { fresh: m.fresh.push(added), target: m.fresh.len() as int, ..m },
        ),
{
    reveal(copies_recorded);
    let rolled = Migration { fresh: m.fresh.push(added), target: m.fresh.len() as int, ..m };
    crate::engine::replay::lemma_recover_insert_empty(m.fresh, m.fresh.len() as int, added);
    assert(m.fresh.insert(m.fresh.len() as int, added) =~= rolled.fresh);
    assert(rolled.fresh.drop_last() =~= m.fresh);
}

/// Copying the record of the next key to the end of the segment that is
/// copied to, and moving the key's pointer there, keeps the copies
/// recorded.
pub proof fn lemma_copies_step(
    pointers: Map<Seq<char>, LogPointer>,
    m: Migration,
    value: Seq<char>,
    target: LogPointer,
)
    requires
        copies_recorded(pointers, m),
        0 <= m.done < m.keys.len(),
        forall|a: int, b: int|
            0 <= a < b < m.keys.len() ==> #[trigger] m.keys[a] != #[trigger] m.keys[b],
        pointers.contains_key(m.keys[m.done]),
        pointers[m.keys[m.done]] == m.start_pointers[m.keys[m.done]],
        command_fits(CommandView::Put { key: m.keys[m.done], value }),
        command_size(CommandView::Put { key: m.keys[m.done], value })
            == pointers[m.keys[m.done]].size,
        m.fresh[m.target].id >= m.new_log,
        m.fresh[m.target].data.len() <= u64::MAX,
        target == (LogPointer {
            pos: m.fresh[m.target].data.len() as u64,
            size: pointers[m.keys[m.done]].size,
            log: m.fresh[m.target].id,
            log_state: m.fresh[m.target].state,
        }),
    ensures
        copies_recorded(
            pointers.insert(m.keys[m.done], target),
            Migration {
                fresh: m.fresh.update(
                    m.target,
                    SegmentView {
                        id: m.fresh[m.target].id,
                        state: m.fresh[m.target].state,
                        data: m.fresh[m.target].data + encode_command(
                            CommandView::Put { key: m.keys[m.done], value },
                        ),
                    },
                ),
                done: m.done + 1,
                ..m
            },
        ),
{
    reveal(copies_recorded);
    let key = m.keys[m.done];
    let cmd = CommandView::Put { key, value };
    let longer = SegmentView {
        id: m.fresh[m.target].id,
        state: m.fresh[m.target].state,
        data: m.fresh[m.target].data + encode_command(cmd),
    };
    let next = Migration { fresh: m.fresh.update(m.target, longer), done: m.done + 1, ..m };
    let moved = pointers.insert(key, target);
    crate::engine::replay::lemma_recover_append(m.fresh, m.target, cmd);
    crate::engine::replay::lemma_recover_appended(
        m.fresh[m.target].data,
        0,
        m.fresh[m.target].id,
        m.fresh[m.target].state,
        nothing_recovered(),
        cmd,
    );
    lemma_decode_encoded(cmd, Seq::empty());
    assert(recover(next.fresh) == recover_put(recover(m.fresh), key, target));
    lemma_total_size_update(m.fresh, m.target, longer);
    assert forall|a: int| 0 <= a < next.done implies {
        &&& moved[#[trigger] next.keys[a]].log >= next.new_log
        &&& recover(next.fresh).key_dir.contains_key(next.keys[a])
        &&& recover(next.fresh).key_dir[next.keys[a]] == moved[next.keys[a]]
    } by {
        if a < m.done {
            assert(m.keys[a] != m.keys[m.done]);
        }
    }
    assert forall|other: Seq<char>| #[trigger]
        recover(next.fresh).key_dir.contains_key(other) implies exists|a: int|
        0 <= a < next.done && #[trigger] next.keys[a] == other by {
        if other == key {
            assert(next.keys[m.done] == other);
        } else {
            assert(recover(m.fresh).key_dir.contains_key(other));
            let a = choose|a: int| 0 <= a < m.done && #[trigger] m.keys[a] == other;
            assert(next.keys[a] == other);
        }
    }
    assert(empty_from(next.fresh, next.target + 1)) by {
        assert forall|i: int| next.target + 1 <= i < next.fresh.len() implies (
        #[trigger] next.fresh[i]).data.len() == 0 by {
            assert(next.fresh[i] == m.fresh[i]);
        }
    }
}

/// Once every key is moved, recovery finds in the fresh segments the key
/// directory as it stands, the fresh segments take as many bytes as the
/// live records, and no pointer refers to a segment of the start.
pub proof fn lemma_copies_end(pointers: Map<Seq<char>, LogPointer>, m: Migration)
    requires
        copies_recorded(pointers, m),
        m.done == m.keys.len(),
        forall|a: int, b: int|
            0 <= a < b < m.keys.len() ==> #[trigger] m.keys[a] != #[trigger] m.keys[b],
        forall|a: int| 0 <= a < m.keys.len() ==> pointers.contains_key(#[trigger] m.keys[a]),
        forall|key: Seq<char>| #[trigger]
            pointers.contains_key(key) ==> exists|a: int|
                0 <= a < m.keys.len() && #[trigger] m.keys[a] == key,
    ensures
        recover(m.fresh).key_dir == pointers,
        total_size(m.fresh) == live_size(pointers),
        forall|key: Seq<char>| #[trigger] pointers.contains_key(key) ==> pointers[key].log >= m.new_log,
{
    reveal(copies_recorded);
    assert forall|key: Seq<char>| #[trigger] pointers.contains_key(key) implies pointers[key].log
        >= m.new_log && recover(m.fresh).key_dir.contains_key(key) && recover(
        m.fresh,
    ).key_dir[key] == pointers[key] by {
        let a = choose|a: int| 0 <= a < m.keys.len() && #[trigger] m.keys[a] == key;
        assert(recover(m.fresh).key_dir.contains_key(m.keys[a]));
    }
    assert(recover(m.fresh).key_dir =~= pointers) by {
        assert forall|key: Seq<char>|
            recover(m.fresh).key_dir.contains_key(key) implies #[trigger] pointers.contains_key(
            key,
        ) by {
            let a = choose|a: int| 0 <= a < m.done && #[trigger] m.keys[a] == key;
            assert(pointers.contains_key(m.keys[a]));
        }
    }
    lemma_sizes_sum_same(m.keys, m.start_pointers, pointers, m.keys.len() as int);
    lemma_sizes_sum_is_live_size(m.keys, pointers);
}

impl OptLogStructKvs {
    /// The invariant of a compaction under way. The directory holds the
    /// segments of the start, untouched, and behind them the fresh ones,
    /// all compacted and with the ids from the first free one on; the
    /// writer still stands in the active segment of the start; and the
    /// changes to the files since the start only make and fill fresh
    /// segments.
    /// Every pointer refers to a record with the value that its key had at
    /// the start: the pointers of keys not yet moved are as they were, and
    /// those of moved keys are what recovery finds in the fresh segments.
    pub closed spec fn migrating(&self, m: Migration, comp: LogWriter) -> bool {
        &&& self.folder.wf()
        &&& self.folder@ == m.start_segments + m.fresh
        &&& 0 <= m.done <= m.keys.len()
        &&& forall|a: int, b: int|
            0 <= a < b < m.keys.len() ==> #[trigger] m.keys[a] != #[trigger] m.keys[b]
        &&& forall|a: int|
            0 <= a < m.keys.len() ==> m.start_pointers.contains_key(#[trigger] m.keys[a])
        &&& forall|key: Seq<char>| #[trigger]
            m.start_pointers.contains_key(key) ==> exists|a: int|
                0 <= a < m.keys.len() && #[trigger] m.keys[a] == key
        &&& self.key_dir@.dom() == m.start_pointers.dom()
        &&& forall|id: u64, state: LogState| #[trigger]
            has_segment(m.start_segments, id, state) ==> id < m.new_log
        &&& m.new_log < self.log_counter
        &&& forall|id: u64, state: LogState| #[trigger]
            has_segment(self.folder@, id, state) ==> id < self.log_counter
        &&& forall|key: Seq<char>| #[trigger]
            m.start_pointers.contains_key(key) ==> points_at(
                m.start_segments,
                key,
                m.start_pointers[key],
            )
        &&& forall|key: Seq<char>| #[trigger]
            self.key_dir@.contains_key(key) ==> points_at(self.folder@, key, self.key_dir@[key])
                && value_at(self.folder@, self.key_dir@[key]) == value_at(
                m.start_segments,
                m.start_pointers[key],
            )
        &&& forall|a: int|
            m.done <= a < m.keys.len() ==> self.key_dir@[#[trigger] m.keys[a]]
                == m.start_pointers[m.keys[a]]
        &&& copies_recorded(self.key_dir@, m)
        &&& fresh_changes(self.folder.pending(), m.start_pending, m.new_log)
        &&& comp.log_state == LogState::Compacted
        &&& comp.attached(self.folder@)
        &&& comp.log >= m.new_log
        &&& m.fresh.len() >= 1
        &&& m.target == m.fresh.len() - 1
        &&& m.fresh[m.target].id == comp.log
        &&& forall|i: int|
            0 <= i < m.fresh.len() ==> (#[trigger] m.fresh[i]).id == m.new_log + i
                && m.fresh[i].state == LogState::Compacted
        &&& forall|i: int|
            0 <= i < m.target ==> (#[trigger] m.fresh[i]).data.len() > self.max_segment_size
        &&& self.log_counter == m.new_log + m.fresh.len()
        &&& self.log_counter < u64::MAX
        &&& self.log_writer.log_state == LogState::Write
        &&& self.log_writer.attached(self.folder@)
        &&& self.log_writer.log < m.new_log
    }

    /// During a compaction the list of keys holds every key of the key
    /// directory of the start.
    proof fn lemma_migrating_keys(&self, m: Migration, comp: LogWriter)
        requires
            self.migrating(m, comp),
        ensures
            forall|a: int|
                0 <= a < m.keys.len() ==> m.start_pointers.contains_key(#[trigger] m.keys[a]),
            forall|key: Seq<char>| #[trigger]
                m.start_pointers.contains_key(key) ==> exists|a: int|
                    0 <= a < m.keys.len() && #[trigger] m.keys[a] == key,
    {
    }

    /// Starts a compaction: takes note of the segments to delete and of
    /// the keys to move, and opens the first compacted segment at the
    /// first free id.
    fn begin_compaction(&mut self) -> (started: (
        LogWriter,
        Vec<(u64, LogState)>,
        Vec<String>,
        Ghost<Migration>,
    ))
        requires
            old(self).consistent(),
            old(self).log_counter < u64::MAX - 1,
        ensures
            final(self).migrating(started.3@, started.0),
            started.3@.done == 0,
            started.3@.start_segments == old(self).folder@,
            started.3@.start_pointers == old(self).key_dir@,
            started.3@.start_pending == old(self).folder.pending(),
            started.3@.new_log == old(self).log_counter,
            started.3@.keys == started.2@.map_values(|key: String| key@),
            started.1@.len() == old(self).folder@.len(),
            forall|a: int|
                0 <= a < started.1@.len() ==> (#[trigger] started.1@[a]) == (
                    old(self).folder@[a].id,
                    old(self).folder@[a].state,
                ),
            final(self).compact_threshold == old(self).compact_threshold,
            final(self).max_segment_size == old(self).max_segment_size,
            final(self).comp_lock == old(self).comp_lock,
            final(self).folder.persisted() == old(self).folder.persisted(),
            final(self).reader == old(self).reader,
            final(self).log_writer == old(self).log_writer,
    {
        let ghost start_segments = self.folder@;
        let ghost start_pointers = self.key_dir@;
        let ghost start_pending = self.folder.pending();
        let old_files = self.folder.keys();
        let new_log = self.log_counter;
        self.log_counter = new_log + 1;
        proof {
            assert forall|i: int| 0 <= i < start_segments.len() implies key_before(
                (#[trigger] start_segments[i]).id,
                start_segments[i].state,
                new_log,
                LogState::Compacted,
            ) by {
                assert(is_at(start_segments, i, start_segments[i].id, start_segments[i].state));
                assert(has_segment(start_segments, start_segments[i].id, start_segments[i].state));
            }
            crate::engine::directory::lemma_place_of(
                start_segments,
                start_segments.len() as int,
                new_log,
                LogState::Compacted,
            );
            assert(!has_segment(start_segments, new_log, LogState::Compacted));
            assert(has_segment(start_segments, self.log_writer.log, LogState::Write));
        }
        let comp_log_writer = LogWriter::new(&mut self.folder, new_log, LogState::Compacted);
        let keys = self.key_dir.keys();
        let ghost compacted = SegmentView {
            id: new_log,
            state: LogState::Compacted,
            data: Seq::empty(),
        };
        let ghost m = Migration {
            start_segments,
            start_pointers,
            start_pending,
            fresh: seq![compacted],
            keys: keys@.map_values(|key: String| key@),
            done: 0,
            new_log,
            target: 0,
        };
        proof {
            assert(self.folder@ =~= m.start_segments + m.fresh);
            assert(grown_from(start_segments, self.folder@)) by {
                assert forall|id: u64, state: LogState| #[trigger]
                    has_segment(start_segments, id, state) implies has_segment(
                    self.folder@,
                    id,
                    state,
                ) && data_of(start_segments, id, state).is_prefix_of(
                    data_of(self.folder@, id, state),
                ) by {
                    assert(data_of(self.folder@, id, state) == data_of(start_segments, id, state));
                }
            }
            lemma_pointers_kept(start_segments, self.folder@, start_pointers);
            lemma_copies_begin(m);
            assert forall|key: Seq<char>| #[trigger]
                m.start_pointers.contains_key(key) implies exists|a: int|
                0 <= a < m.keys.len() && #[trigger] m.keys[a] == key by {
                let a = choose|a: int| 0 <= a < keys@.len() && (#[trigger] keys@[a])@ == key;
                assert(m.keys[a] == key);
            }
            let change = DiskChangeView::Create { id: new_log, state: LogState::Compacted };
            assert(self.folder.pending() == start_pending.push(change));
            assert(self.folder.pending().subrange(0, start_pending.len() as int) =~= start_pending);
            assert(data_of(self.folder@, self.log_writer.log, LogState::Write) == data_of(
                start_segments,
                self.log_writer.log,
                LogState::Write,
            ));
        }
        (comp_log_writer, old_files, keys, Ghost(m))
    }

    /// Leaves a compacted segment that has grown past the size limit and
    /// goes on in a new one, where a segment id is left for it.
    fn roll_compacted(&mut self, comp: &mut LogWriter, Ghost(m): Ghost<Migration>) -> (rolled:
        Ghost<Migration>)
        requires
            old(self).migrating(m, *old(comp)),
        ensures
            final(self).migrating(rolled@, *final(comp)),
            rolled@.start_segments == m.start_segments,
            rolled@.start_pointers == m.start_pointers,
            rolled@.keys == m.keys,
            rolled@.done == m.done,
            rolled@.new_log == m.new_log,
            rolled@.start_pending == m.start_pending,
            final(self).log_writer == old(self).log_writer,
            final(self).compact_threshold == old(self).compact_threshold,
            final(self).max_segment_size == old(self).max_segment_size,
            final(self).comp_lock == old(self).comp_lock,
            final(self).folder.persisted() == old(self).folder.persisted(),
            final(self).uncompacted_size == old(self).uncompacted_size,
            final(self).reader == old(self).reader,
    {
        if comp.pos > self.max_segment_size && self.log_counter < u64::MAX - 1 {
            let next_log = self.log_counter;
            self.log_counter = next_log + 1;
            let ghost before = self.folder@;
            proof {
                assert forall|i: int| 0 <= i < before.len() implies key_before(
                    (#[trigger] before[i]).id,
                    before[i].state,
                    next_log,
                    LogState::Compacted,
                ) by {
                    assert(is_at(before, i, before[i].id, before[i].state));
                    assert(has_segment(before, before[i].id, before[i].state));
                }
                crate::engine::directory::lemma_place_of(
                    before,
                    before.len() as int,
                    next_log,
                    LogState::Compacted,
                );
                assert(!has_segment(before, next_log, LogState::Compacted));
                assert(before[m.start_segments.len() + m.target] == m.fresh[m.target]);
                lemma_unique_place(
                    before,
                    m.start_segments.len() + m.target,
                    comp.log,
                    LogState::Compacted,
                );
                assert(has_segment(before, self.log_writer.log, LogState::Write));
            }
            let ghost pending_before = self.folder.pending();
            comp.roll(&mut self.folder, next_log, LogState::Compacted);
            let ghost added = SegmentView {
                id: next_log,
                state: LogState::Compacted,
                data: Seq::empty(),
            };
            let ghost rolled = Migration {
                fresh: m.fresh.push(added),
                target: m.fresh.len() as int,
                ..m
            };
            proof {
                assert(self.folder@ =~= m.start_segments + rolled.fresh);
                lemma_copies_roll(self.key_dir@, m, added);
                assert(grown_from(before, self.folder@)) by {
                    assert forall|id: u64, state: LogState| #[trigger]
                        has_segment(before, id, state) implies has_segment(self.folder@, id, state)
                        && data_of(before, id, state).is_prefix_of(
                        data_of(self.folder@, id, state),
                    ) by {
                        assert(data_of(self.folder@, id, state) == data_of(before, id, state));
                    }
                }
                lemma_pointers_kept(before, self.folder@, self.key_dir@);
                let change = DiskChangeView::Create { id: next_log, state: LogState::Compacted };
                assert(self.folder.pending() == pending_before.push(change));
                assert(self.folder.pending().subrange(0, m.start_pending.len() as int)
                    =~= pending_before.subrange(0, m.start_pending.len() as int));
                assert forall|i: int| 0 <= i < rolled.target implies (
                #[trigger] rolled.fresh[i]).data.len() > self.max_segment_size by {
                    assert(rolled.fresh[i] == m.fresh[i]);
                }
                assert(data_of(self.folder@, self.log_writer.log, LogState::Write) == data_of(
                    before,
                    self.log_writer.log,
                    LogState::Write,
                ));
            }
            Ghost(rolled)
        } else {
            Ghost(m)
        }
    }

    /// Moves the next key: copies its record to the end of the compacted
    /// segment and lets its pointer refer to the copy.
    fn migrate_key(
        &mut self,
        comp: &mut LogWriter,
        key: &String,
        Ghost(m): Ghost<Migration>,
    ) -> (moved: (Result<(), KvsError>, Ghost<Migration>))
        requires
            old(self).migrating(m, *old(comp)),
            m.done < m.keys.len(),
            key@ == m.keys[m.done],
        ensures
            moved.0 is Ok,
            final(self).migrating(moved.1@, *final(comp)),
            moved.1@.start_segments == m.start_segments,
            moved.1@.start_pointers == m.start_pointers,
            moved.1@.keys == m.keys,
            moved.1@.done == m.done + 1,
            moved.1@.new_log == m.new_log,
            moved.1@.start_pending == m.start_pending,
            final(self).log_writer == old(self).log_writer,
            final(self).reader.opened() == old(self).reader.opened().insert(
                handle_key(
                    m.start_pointers[m.keys[m.done]].log,
                    m.start_pointers[m.keys[m.done]].log_state,
                ),
            ),
            final(self).reader.marked() == old(self).reader.marked().insert(
                handle_key(
                    m.start_pointers[m.keys[m.done]].log,
                    m.start_pointers[m.keys[m.done]].log_state,
                ),
            ),
            final(self).log_counter == old(self).log_counter,
            final(self).compact_threshold == old(self).compact_threshold,
            final(self).max_segment_size == old(self).max_segment_size,
            final(self).comp_lock == old(self).comp_lock,
            final(self).folder.persisted() == old(self).folder.persisted(),
            final(self).uncompacted_size == old(self).uncompacted_size,
    {
        let source = match self.key_dir.get(key.as_str()) {
            Some(source) => source,
            None => {
                assert(m.start_pointers.contains_key(m.keys[m.done]));
                assert(self.key_dir@.dom().contains(key@));
                return (Err(KvsError::KeyNotFound), Ghost(m));
            },
        };
        assert(source == m.start_pointers[key@]);
        assert(points_at(self.folder@, key@, source));
        let buf = match self.reader.read_log_clean_after(&self.folder, &source) {
            Ok(buf) => buf,
            Err(error) => {
                return (Err(error), Ghost(m));
            },
        };
        let ghost before = self.folder@;
        let ghost start = m.fresh[m.target].data;
        let ghost value = value_at(m.start_segments, source);
        let ghost cmd = CommandView::Put { key: key@, value };
        let ghost place = m.start_segments.len() + m.target;
        proof {
            lemma_pointed_record(before, key@, source);
            assert(buf@ == encode_command(cmd));
            assert(before[place] == m.fresh[m.target]);
            lemma_unique_place(before, place, comp.log, LogState::Compacted);
            assert(has_segment(before, self.log_writer.log, LogState::Write));
        }
        let ghost pending_before = self.folder.pending();
        let target = LogPointer {
            pos: comp.pos,
            size: buf.len() as u64,
            log: comp.log,
            log_state: LogState::Compacted,
        };
        match comp.write_buf(&mut self.folder, buf.as_slice()) {
            Ok(_) => {},
            Err(error) => {
                return (Err(error), Ghost(m));
            },
        }
        let ghost longer = SegmentView {
            id: comp.log,
            state: LogState::Compacted,
            data: start + encode_command(cmd),
        };
        let ghost next = Migration { fresh: m.fresh.update(m.target, longer), done: m.done + 1, ..m };
        proof {
            assert(self.folder@ =~= m.start_segments + next.fresh);
            lemma_appended_record(self.folder@, cmd, target, start);
            assert(target.size == source.size);
            lemma_copies_step(self.key_dir@, m, value, target);
            assert(grown_from(before, self.folder@)) by {
                assert forall|id: u64, state: LogState| #[trigger]
                    has_segment(before, id, state) implies has_segment(self.folder@, id, state)
                    && data_of(before, id, state).is_prefix_of(data_of(self.folder@, id, state)) by {
                    if id == comp.log && state == LogState::Compacted {
                        assert(start.is_prefix_of(start + buf@));
                    } else {
                        assert(data_of(self.folder@, id, state) == data_of(before, id, state));
                    }
                }
            }
            lemma_pointers_kept(before, self.folder@, self.key_dir@);
            let change = DiskChangeView::Append {
                id: comp.log,
                state: LogState::Compacted,
                bytes: buf@,
            };
            assert(self.folder.pending() == pending_before.push(change));
            assert(self.folder.pending().subrange(0, m.start_pending.len() as int)
                =~= pending_before.subrange(0, m.start_pending.len() as int));
            assert forall|i: int| 0 <= i < next.fresh.len() implies (#[trigger] next.fresh[i]).id
                == next.new_log + i && next.fresh[i].state == LogState::Compacted by {
                assert(m.fresh[i].id == m.new_log + i);
            }
            assert forall|i: int| 0 <= i < next.target implies (
            #[trigger] next.fresh[i]).data.len() > self.max_segment_size by {
                assert(next.fresh[i] == m.fresh[i]);
            }
            assert(data_of(self.folder@, self.log_writer.log, LogState::Write) == data_of(
                before,
                self.log_writer.log,
                LogState::Write,
            ));
        }
        let ghost before_move = self.key_dir@;
        self.key_dir.compare_and_set(key.as_str(), source, target);
        proof {
            assert(self.key_dir@ == before_move.insert(key@, target));
            assert(self.key_dir@.dom() =~= m.start_pointers.dom());
            assert forall|a: int| next.done <= a < next.keys.len() implies self.key_dir@[
            #[trigger] next.keys[a]] == next.start_pointers[next.keys[a]] by {
                assert(m.keys[m.done] != m.keys[a]);
            }
        }
        (Ok(()), Ghost(next))
    }
}

impl OptLogStructKvs {
    /// Ends a compaction in which every key was moved: lets the writer go
    /// on in a fresh active segment behind the compacted ones, deletes the
    /// segments of the start and sets the count of uncompacted bytes back
    /// to zero.
    fn finish_compaction(
        &mut self,
        old_files: &Vec<(u64, LogState)>,
        comp: &LogWriter,
        Ghost(m): Ghost<Migration>,
    )
        requires
            old(self).migrating(m, *comp),
            m.done == m.keys.len(),
            old_files@.len() == m.start_segments.len(),
            forall|a: int|
                0 <= a < old_files@.len() ==> (#[trigger] old_files@[a]) == (
                    m.start_segments[a].id,
                    m.start_segments[a].state,
                ),
        ensures
            final(self).consistent(),
            final(self).durable(),
            final(self)@ == stored_map(m.start_segments, m.start_pointers),
            total_size(final(self).segments()) == live_size(final(self).pointers()),
            compacted_segments(final(self).segments(), m.new_log, final(self).max_segment_size),
            final(self).log_writer == (LogWriter {
                log: (m.new_log + final(self).segments().len() - 1) as u64,
                log_state: LogState::Write,
                pos: 0,
            }),
            final(self).log_counter == m.new_log + final(self).segments().len(),
            compaction_changes(
                final(self).folder.pending(),
                m.start_pending,
                m.start_segments,
                m.new_log,
            ),
            final(self).uncompacted_size == 0,
            final(self).reader == old(self).reader,
            final(self).compact_threshold == old(self).compact_threshold,
            final(self).max_segment_size == old(self).max_segment_size,
            final(self).comp_lock == old(self).comp_lock,
            final(self).folder.persisted() == old(self).folder.persisted(),
    {
        let count = old_files.len();
        proof {
            assert forall|a: int| 0 <= a < m.keys.len() implies self.key_dir@.contains_key(
                #[trigger] m.keys[a],
            ) by {
                assert(m.start_pointers.contains_key(m.keys[a]));
                assert(self.key_dir@.dom().contains(m.keys[a]));
            }
            assert forall|key: Seq<char>| #[trigger]
                self.key_dir@.contains_key(key) implies exists|a: int|
                0 <= a < m.keys.len() && #[trigger] m.keys[a] == key by {
                assert(m.start_pointers.dom().contains(key));
                assert(m.start_pointers.contains_key(key));
            }
            lemma_copies_end(self.key_dir@, m);
        }
        let active = self.log_counter;
        self.log_counter = active + 1;
        let ghost before_roll = self.folder@;
        let ghost pending_before = self.folder.pending();
        proof {
            assert forall|i: int| 0 <= i < before_roll.len() implies key_before(
                (#[trigger] before_roll[i]).id,
                before_roll[i].state,
                active,
                LogState::Write,
            ) by {
                assert(is_at(before_roll, i, before_roll[i].id, before_roll[i].state));
                assert(has_segment(before_roll, before_roll[i].id, before_roll[i].state));
            }
            crate::engine::directory::lemma_place_of(
                before_roll,
                before_roll.len() as int,
                active,
                LogState::Write,
            );
            assert(!has_segment(before_roll, active, LogState::Write));
        }
        self.log_writer.roll(&mut self.folder, active, LogState::Write);
        let ghost added = SegmentView { id: active, state: LogState::Write, data: Seq::empty() };
        let ghost kept = m.fresh.push(added);
        let ghost writes = self.folder.pending();
        proof {
            assert(self.folder@ =~= m.start_segments + kept);
            assert(grown_from(before_roll, self.folder@)) by {
                assert forall|id: u64, state: LogState| #[trigger]
                    has_segment(before_roll, id, state) implies has_segment(
                    self.folder@,
                    id,
                    state,
                ) && data_of(before_roll, id, state).is_prefix_of(
                    data_of(self.folder@, id, state),
                ) by {
                    assert(data_of(self.folder@, id, state) == data_of(before_roll, id, state));
                }
            }
            lemma_pointers_kept(before_roll, self.folder@, self.key_dir@);
            crate::engine::replay::lemma_recover_insert_empty(m.fresh, m.fresh.len() as int, added);
            assert(m.fresh.insert(m.fresh.len() as int, added) =~= kept);
            assert(kept.drop_last() =~= m.fresh);
            assert(total_size(kept) == total_size(m.fresh));
            let change = DiskChangeView::Create { id: active, state: LogState::Write };
            assert(writes == pending_before.push(change));
            assert(writes.subrange(0, m.start_pending.len() as int) =~= pending_before.subrange(
                0,
                m.start_pending.len() as int,
            ));
            assert(m.start_segments.subrange(0, count as int) =~= m.start_segments);
            assert(removals_of(m.start_segments.subrange(0, 0)) =~= Seq::<DiskChangeView>::empty());
            assert(writes + removals_of(m.start_segments.subrange(0, 0)) =~= writes);
            assert(fresh_changes(writes, m.start_pending, m.new_log));
        }
        let mut j: usize = 0;
        while j < count
            invariant
                j <= count,
                count == old_files@.len(),
                count == m.start_segments.len(),
                forall|a: int|
                    0 <= a < old_files@.len() ==> (#[trigger] old_files@[a]) == (
                        m.start_segments[a].id,
                        m.start_segments[a].state,
                    ),
                self.folder.wf(),
                self.folder.persisted() == old(self).folder.persisted(),
                self.folder@ == m.start_segments.subrange(j as int, count as int) + kept,
                self.folder.pending() == writes + removals_of(
                    m.start_segments.subrange(0, j as int),
                ),
                fresh_changes(writes, m.start_pending, m.new_log),
                kept == m.fresh.push(added),
                added == (SegmentView { id: active, state: LogState::Write, data: Seq::empty() }),
                forall|i: int| 0 <= i < m.fresh.len() ==> (#[trigger] m.fresh[i]).id >= m.new_log,
                active >= m.new_log,
                self.key_dir == old(self).key_dir,
                self.reader == old(self).reader,
                self.log_writer == (LogWriter { log: active, log_state: LogState::Write, pos: 0 }),
                self.log_counter == active + 1,
                self.compact_threshold == old(self).compact_threshold,
                self.max_segment_size == old(self).max_segment_size,
                self.comp_lock == old(self).comp_lock,
                forall|id: u64, state: LogState| #[trigger]
                    has_segment(m.start_segments, id, state) ==> id < m.new_log,
                forall|id: u64, state: LogState| #[trigger]
                    has_segment(self.folder@, id, state) ==> id < self.log_counter,
                forall|key: Seq<char>| #[trigger]
                    self.key_dir@.contains_key(key) ==> self.key_dir@[key].log >= m.new_log
                        && points_at(self.folder@, key, self.key_dir@[key]) && value_at(
                        self.folder@,
                        self.key_dir@[key],
                    ) == value_at(m.start_segments, m.start_pointers[key]),
                has_segment(self.folder@, active, LogState::Write),
                data_of(self.folder@, active, LogState::Write) == Seq::<u8>::empty(),
            decreases count - j,
        {
            let (id, state) = old_files[j];
            let ghost before = self.folder@;
            proof {
                assert(before[0] == m.start_segments[j as int]);
                lemma_unique_place(before, 0, id, state);
                assert(is_at(m.start_segments, j as int, id, state));
                assert(has_segment(m.start_segments, id, state));
            }
            self.folder.remove_file(id, state);
            proof {
                assert(self.folder@ =~= m.start_segments.subrange(j + 1, count as int) + kept);
                assert forall|key: Seq<char>| #[trigger]
                    self.key_dir@.contains_key(key) implies points_at(
                    self.folder@,
                    key,
                    self.key_dir@[key],
                ) && value_at(self.folder@, self.key_dir@[key]) == value_at(
                    m.start_segments,
                    m.start_pointers[key],
                ) by {
                    let pointer = self.key_dir@[key];
                    assert(points_at(before, key, pointer));
                    assert(has_segment(before, pointer.log, pointer.log_state));
                    assert(has_segment(self.folder@, pointer.log, pointer.log_state));
                    assert(data_of(self.folder@, pointer.log, pointer.log_state) == data_of(
                        before,
                        pointer.log,
                        pointer.log_state,
                    ));
                    lemma_pointer_kept(before, self.folder@, key, pointer);
                }
                assert(has_segment(before, active, LogState::Write));
                assert(removals_of(m.start_segments.subrange(0, j + 1)) =~= removals_of(
                    m.start_segments.subrange(0, j as int),
                ).push(DiskChangeView::Remove { id, state }));
                assert(self.folder.pending() =~= writes + removals_of(
                    m.start_segments.subrange(0, j + 1),
                ));
            }
            j = j + 1;
        }
        self.uncompacted_size = 0;
        proof {
            assert(self.folder@ =~= kept);
            assert(self@ =~= stored_map(m.start_segments, m.start_pointers));
            let last = kept.len() - 1;
            assert(is_at(kept, last, active, LogState::Write));
            lemma_unique_place(kept, last, active, LogState::Write);
            assert(compacted_segments(kept, m.new_log, self.max_segment_size)) by {
                assert forall|i: int| 0 <= i < kept.len() - 1 implies (#[trigger] kept[i]).id
                    == m.new_log + i && kept[i].state == LogState::Compacted by {
                    assert(kept[i] == m.fresh[i]);
                }
                assert forall|i: int| 0 <= i < kept.len() - 2 implies (
                #[trigger] kept[i]).data.len() > self.max_segment_size by {
                    assert(kept[i] == m.fresh[i]);
                }
            }
            let pending = self.folder.pending();
            assert(pending.subrange(0, pending.len() - count) =~= writes);
            assert(pending.subrange(pending.len() - count, pending.len() as int) =~= removals_of(
                m.start_segments,
            ));
        }
    }

    /// Compacts the log: the current record of every key is copied into
    /// fresh compacted segments, its pointer is moved there, the writer
    /// goes on in a fresh active segment behind them, and the segments that
    /// were in the directory before are deleted.
    pub(super) fn compact_logs(&mut self) -> (done: Result<(), KvsError>)
        requires
            old(self).consistent(),
            old(self).next_log() < u64::MAX - 1,
            old(self).marked() == Set::<(u64, char)>::empty(),
        ensures
            final(self).consistent(),
            final(self).marked() == Set::<(u64, char)>::empty(),
            final(self).compacted_at(
                old(self).next_log(),
                old(self).opened(),
                old(self).pointers(),
                old(self).segments(),
                old(self).pending(),
            ),
            done is Ok,
            final(self)@ == old(self)@,
            final(self).compacting() == old(self).compacting(),
            final(self).persisted() == old(self).persisted(),
            final(self).threshold() == old(self).threshold(),
            final(self).segment_limit() == old(self).segment_limit(),
    {
        let (mut comp_log_writer, old_files, keys, Ghost(started)) = self.begin_compaction();
        let ghost mut m = started;
        let mut i: usize = 0;
        proof {
            assert(moved_handles(m) =~= Set::<(u64, char)>::empty());
            assert(self.reader.opened() =~= old(self).reader.opened().union(moved_handles(m)));
        }
        while i < keys.len()
            invariant
                i <= keys.len(),
                self.migrating(m, comp_log_writer),
                m.done == i,
                m.keys == keys@.map_values(|key: String| key@),
                m.start_segments == old(self).folder@,
                m.start_pointers == old(self).key_dir@,
                m.start_pending == old(self).folder.pending(),
                m.new_log == old(self).log_counter,
                self.folder.persisted() == old(self).folder.persisted(),
                self.reader.marked() == moved_handles(m),
                self.reader.opened() == old(self).reader.opened().union(moved_handles(m)),
                self.compact_threshold == old(self).compact_threshold,
                self.max_segment_size == old(self).max_segment_size,
                self.comp_lock == old(self).comp_lock,
            decreases keys.len() - i,
        {
            let Ghost(rolled) = self.roll_compacted(&mut comp_log_writer, Ghost(m));
            let (moved, Ghost(next)) = self.migrate_key(
                &mut comp_log_writer,
                &keys[i],
                Ghost(rolled),
            );
            proof {
                lemma_moved_handles_step(rolled);
                assert(moved_handles(rolled) == moved_handles(m));
                assert(next == Migration { done: rolled.done + 1, ..next });
                assert(moved_handles(next) == moved_handles(
                    Migration { done: rolled.done + 1, ..rolled },
                ));
                assert(self.reader.opened() =~= old(self).reader.opened().union(
                    moved_handles(next),
                ));
                m = next;
            }
            match moved {
                Ok(_) => {},
                Err(error) => {
                    return Err(error);
                },
            }
            i = i + 1;
        }
        proof {
            self.lemma_migrating_keys(m, comp_log_writer);
            lemma_moved_handles_end(m);
        }
        self.reader.clean_up();
        proof {
            assert(self.reader.opened() =~= old(self).reader.opened().difference(
                live_handles(old(self).key_dir@),
            ));
        }
        self.finish_compaction(&old_files, &comp_log_writer, Ghost(m));
        Ok(())
    }
}

} // verus!
