//! The store directory as a value: the segments it holds, each with the
//! bytes of its file, kept in the order in which they are replayed.

use crate::engine::segment::{
    lemma_file_name_injective,
    log_file_name,
    parse_filename,
    segment_file_name,
    LogState,
};
use crate::error::KvsError;
use vstd::prelude::*;
use vstd::slice::slice_to_vec;

verus! {

/// One segment file: its id, its state and its bytes.
#[derive(Debug, Clone)]
pub struct Segment {
    pub id: u64,
    pub state: LogState,
    pub data: Vec<u8>,
}

/// The mathematical content of a [`Segment`].
pub struct SegmentView {
    pub id: u64,
    pub state: LogState,
    pub data: Seq<u8>,
}

impl View for Segment {
    type V = SegmentView;

    open spec fn view(&self) -> SegmentView {
        SegmentView { id: self.id, state: self.state, data: self.data@ }
    }
}

/// Where a state stands among segments of one id: a compacted segment is
/// replayed before the write segment of the same id.
pub open spec fn state_rank(state: LogState) -> int {
    match state {
        LogState::Compacted => 0,
        LogState::Write => 1,
    }
}

/// Whether segment `(id_a, state_a)` is replayed before `(id_b, state_b)`:
/// ids decide, and the state only where the ids are equal.
pub open spec fn key_before(id_a: u64, state_a: LogState, id_b: u64, state_b: LogState) -> bool {
    id_a < id_b || (id_a == id_b && state_rank(state_a) < state_rank(state_b))
}

/// Whether the segments stand in replay order, which also means that no two
/// of them share id and state.
pub open spec fn in_replay_order(segments: Seq<SegmentView>) -> bool {
    forall|i: int, j: int|
        0 <= i < j < segments.len() ==> key_before(
            (#[trigger] segments[i]).id,
            segments[i].state,
            (#[trigger] segments[j]).id,
            segments[j].state,
        )
}

/// Whether the segment at `index` is the one with this id and state.
pub open spec fn is_at(segments: Seq<SegmentView>, index: int, id: u64, state: LogState) -> bool {
    0 <= index < segments.len() && segments[index].id == id && segments[index].state == state
}

/// Whether a segment with this id and state is present.
pub open spec fn has_segment(segments: Seq<SegmentView>, id: u64, state: LogState) -> bool {
    exists|index: int| is_at(segments, index, id, state)
}

/// The place of the segment with this id and state, if it is present.
pub open spec fn index_of(segments: Seq<SegmentView>, id: u64, state: LogState) -> int {
    choose|index: int| is_at(segments, index, id, state)
}

/// The bytes of the segment with this id and state, if it is present.
pub open spec fn data_of(segments: Seq<SegmentView>, id: u64, state: LogState) -> Seq<u8> {
    segments[index_of(segments, id, state)].data
}

/// In a directory in replay order a segment is found at one place only.
pub proof fn lemma_unique_place(segments: Seq<SegmentView>, index: int, id: u64, state: LogState)
    requires
        in_replay_order(segments),
        is_at(segments, index, id, state),
    ensures
        has_segment(segments, id, state),
        index_of(segments, id, state) == index,
        data_of(segments, id, state) == segments[index].data,
{
    let found = index_of(segments, id, state);
    assert(is_at(segments, found, id, state));
    if found < index {
        assert(key_before(
            segments[found].id,
            segments[found].state,
            segments[index].id,
            segments[index].state,
        ));
    } else if index < found {
        assert(key_before(
            segments[index].id,
            segments[index].state,
            segments[found].id,
            segments[found].state,
        ));
    }
}

/// What changing the bytes of the segment at `index` does to a directory.
pub proof fn lemma_update_frame(segments: Seq<SegmentView>, index: int, data: Seq<u8>)
    requires
        in_replay_order(segments),
        0 <= index < segments.len(),
    ensures
        ({
            let changed = segments.update(
                index,
                SegmentView { id: segments[index].id, state: segments[index].state, data },
            );
            &&& in_replay_order(changed)
            &&& forall|id: u64, state: LogState|
                has_segment(changed, id, state) == has_segment(segments, id, state)
            &&& forall|id: u64, state: LogState|
                has_segment(segments, id, state) ==> #[trigger] data_of(changed, id, state) == if id
                    == segments[index].id && state == segments[index].state {
                    data
                } else {
                    data_of(segments, id, state)
                }
        }),
{
    let changed = segments.update(
        index,
        SegmentView { id: segments[index].id, state: segments[index].state, data },
    );
    assert forall|i: int, j: int| 0 <= i < j < changed.len() implies key_before(
        (#[trigger] changed[i]).id,
        changed[i].state,
        (#[trigger] changed[j]).id,
        changed[j].state,
    ) by {
        assert(key_before(segments[i].id, segments[i].state, segments[j].id, segments[j].state));
    }
    assert forall|id: u64, state: LogState|
        has_segment(changed, id, state) == has_segment(segments, id, state) by {
        if has_segment(changed, id, state) {
            let at = index_of(changed, id, state);
            assert(is_at(segments, at, id, state));
        }
        if has_segment(segments, id, state) {
            let at = index_of(segments, id, state);
            assert(is_at(changed, at, id, state));
        }
    }
    assert forall|id: u64, state: LogState| has_segment(segments, id, state) implies #[trigger]
        data_of(changed, id, state) == if id == segments[index].id && state
        == segments[index].state {
        data
    } else {
        data_of(segments, id, state)
    } by {
        let at = index_of(segments, id, state);
        assert(is_at(changed, at, id, state));
        lemma_unique_place(changed, at, id, state);
        lemma_unique_place(segments, at, id, state);
        if id == segments[index].id && state == segments[index].state {
            lemma_unique_place(segments, index, id, state);
        }
    }
}

/// What putting a new, empty segment at `place` does to a directory.
pub proof fn lemma_insert_frame(segments: Seq<SegmentView>, place: int, id: u64, state: LogState)
    requires
        in_replay_order(segments),
        0 <= place <= segments.len(),
        forall|i: int|
            0 <= i < place ==> key_before((#[trigger] segments[i]).id, segments[i].state, id, state),
        forall|i: int|
            place <= i < segments.len() ==> key_before(
                id,
                state,
                (#[trigger] segments[i]).id,
                segments[i].state,
            ),
    ensures
        ({
            let grown = segments.insert(place, SegmentView { id, state, data: Seq::empty() });
            &&& in_replay_order(grown)
            &&& !has_segment(segments, id, state)
            &&& is_at(grown, place, id, state)
            &&& forall|other: u64, other_state: LogState|
                has_segment(grown, other, other_state) == (has_segment(
                    segments,
                    other,
                    other_state,
                ) || (other == id && other_state == state))
            &&& forall|other: u64, other_state: LogState|
                has_segment(segments, other, other_state) ==> #[trigger] data_of(
                    grown,
                    other,
                    other_state,
                ) == data_of(segments, other, other_state)
            &&& data_of(grown, id, state) == Seq::<u8>::empty()
        }),
{
    let grown = segments.insert(place, SegmentView { id, state, data: Seq::empty() });
    assert forall|i: int, j: int| 0 <= i < j < grown.len() implies key_before(
        (#[trigger] grown[i]).id,
        grown[i].state,
        (#[trigger] grown[j]).id,
        grown[j].state,
    ) by {
        if j < place {
            assert(key_before(segments[i].id, segments[i].state, segments[j].id, segments[j].state));
        } else if j == place {
            assert(grown[i] == segments[i]);
        } else if i < place {
            assert(grown[j] == segments[j - 1]);
            assert(key_before(
                segments[i].id,
                segments[i].state,
                segments[j - 1].id,
                segments[j - 1].state,
            ));
        } else if i == place {
            assert(grown[j] == segments[j - 1]);
        } else {
            assert(grown[i] == segments[i - 1]);
            assert(grown[j] == segments[j - 1]);
            assert(key_before(
                segments[i - 1].id,
                segments[i - 1].state,
                segments[j - 1].id,
                segments[j - 1].state,
            ));
        }
    }
    assert(!has_segment(segments, id, state)) by {
        if has_segment(segments, id, state) {
            let at = index_of(segments, id, state);
            assert(is_at(segments, at, id, state));
            if at < place {
                assert(key_before(segments[at].id, segments[at].state, id, state));
            } else {
                assert(key_before(id, state, segments[at].id, segments[at].state));
            }
        }
    }
    assert(is_at(grown, place, id, state));
    lemma_unique_place(grown, place, id, state);
    assert forall|other: u64, other_state: LogState|
        has_segment(grown, other, other_state) == (has_segment(segments, other, other_state) || (
        other == id && other_state == state)) by {
        if has_segment(grown, other, other_state) {
            let at = index_of(grown, other, other_state);
            if at < place {
                assert(is_at(segments, at, other, other_state));
            } else if at > place {
                assert(is_at(segments, at - 1, other, other_state));
            }
        }
        if has_segment(segments, other, other_state) {
            let at = index_of(segments, other, other_state);
            if at < place {
                assert(is_at(grown, at, other, other_state));
            } else {
                assert(is_at(grown, at + 1, other, other_state));
            }
        }
    }
    assert forall|other: u64, other_state: LogState|
        has_segment(segments, other, other_state) implies #[trigger] data_of(
        grown,
        other,
        other_state,
    ) == data_of(segments, other, other_state) by {
        let at = index_of(segments, other, other_state);
        lemma_unique_place(segments, at, other, other_state);
        if at < place {
            lemma_unique_place(grown, at, other, other_state);
        } else {
            lemma_unique_place(grown, at + 1, other, other_state);
        }
    }
}

/// What taking the segment at `index` away does to a directory.
pub proof fn lemma_remove_frame(segments: Seq<SegmentView>, index: int)
    requires
        in_replay_order(segments),
        0 <= index < segments.len(),
    ensures
        ({
            let rest = segments.remove(index);
            &&& in_replay_order(rest)
            &&& forall|id: u64, state: LogState|
                has_segment(rest, id, state) == (has_segment(segments, id, state) && !(id
                    == segments[index].id && state == segments[index].state))
            &&& forall|id: u64, state: LogState|
                has_segment(rest, id, state) ==> #[trigger] data_of(rest, id, state) == data_of(
                    segments,
                    id,
                    state,
                )
        }),
{
    let rest = segments.remove(index);
    assert forall|i: int, j: int| 0 <= i < j < rest.len() implies key_before(
        (#[trigger] rest[i]).id,
        rest[i].state,
        (#[trigger] rest[j]).id,
        rest[j].state,
    ) by {
        let a = if i < index { i } else { i + 1 };
        let b = if j < index { j } else { j + 1 };
        assert(rest[i] == segments[a]);
        assert(rest[j] == segments[b]);
        assert(key_before(segments[a].id, segments[a].state, segments[b].id, segments[b].state));
    }
    assert forall|id: u64, state: LogState|
        has_segment(rest, id, state) == (has_segment(segments, id, state) && !(id
            == segments[index].id && state == segments[index].state)) by {
        if has_segment(rest, id, state) {
            let at = index_of(rest, id, state);
            let a = if at < index { at } else { at + 1 };
            assert(rest[at] == segments[a]);
            assert(is_at(segments, a, id, state));
            if id == segments[index].id && state == segments[index].state {
                lemma_unique_place(segments, index, id, state);
                lemma_unique_place(segments, a, id, state);
            }
        }
        if has_segment(segments, id, state) && !(id == segments[index].id && state
            == segments[index].state) {
            let at = index_of(segments, id, state);
            let a = if at < index { at } else { at - 1 };
            assert(rest[a] == segments[at]);
            assert(is_at(rest, a, id, state));
        }
    }
    assert forall|id: u64, state: LogState| has_segment(rest, id, state) implies #[trigger] data_of(
        rest,
        id,
        state,
    ) == data_of(segments, id, state) by {
        let at = index_of(rest, id, state);
        let a = if at < index { at } else { at + 1 };
        assert(rest[at] == segments[a]);
        lemma_unique_place(rest, at, id, state);
        lemma_unique_place(segments, a, id, state);
    }
}

/// Where a segment with this id and state stands, or would have to stand,
/// in a directory in replay order: behind every segment that is replayed
/// before it.
pub open spec fn place_of(segments: Seq<SegmentView>, id: u64, state: LogState) -> int
    decreases segments.len(),
{
    if segments.len() == 0 {
        0
    } else if key_before(segments.last().id, segments.last().state, id, state) {
        segments.len() as int
    } else {
        place_of(segments.drop_last(), id, state)
    }
}

/// The place of a segment is the one that splits the directory into what
/// is replayed before it and what is not.
pub proof fn lemma_place_of(segments: Seq<SegmentView>, place: int, id: u64, state: LogState)
    requires
        0 <= place <= segments.len(),
        forall|i: int|
            0 <= i < place ==> key_before((#[trigger] segments[i]).id, segments[i].state, id, state),
        forall|i: int|
            place <= i < segments.len() ==> !key_before(
                (#[trigger] segments[i]).id,
                segments[i].state,
                id,
                state,
            ),
    ensures
        place_of(segments, id, state) == place,
    decreases segments.len(),
{
    if segments.len() > 0 {
        if place == segments.len() {
            assert(key_before(segments[place - 1].id, segments[place - 1].state, id, state));
        } else {
            let shorter = segments.drop_last();
            assert(!key_before(
                segments[segments.len() - 1].id,
                segments[segments.len() - 1].state,
                id,
                state,
            ));
            assert forall|i: int| 0 <= i < place implies key_before(
                (#[trigger] shorter[i]).id,
                shorter[i].state,
                id,
                state,
            ) by {
                assert(shorter[i] == segments[i]);
            }
            assert forall|i: int| place <= i < shorter.len() implies !key_before(
                (#[trigger] shorter[i]).id,
                shorter[i].state,
                id,
                state,
            ) by {
                assert(shorter[i] == segments[i]);
            }
            lemma_place_of(shorter, place, id, state);
        }
    }
}

/// Whether every segment is short enough for its length to be held in a
/// `u64`. Every directory that is held in memory is.
pub open spec fn sizes_fit(segments: Seq<SegmentView>) -> bool {
    forall|i: int| 0 <= i < segments.len() ==> (#[trigger] segments[i]).data.len() <= u64::MAX
}

/// One change to the files of a store directory.
#[derive(Debug, Clone, PartialEq, Eq)]
pub enum DiskChange {
    /// Make the file of a segment, empty, where there is none.
    Create { id: u64, state: LogState },
    /// Write bytes at the end of the file of a segment, making the file
    /// where there is none.
    Append { id: u64, state: LogState, bytes: Vec<u8> },
    /// Delete the file of a segment.
    Remove { id: u64, state: LogState },
}

/// The mathematical content of a [`DiskChange`].
pub enum DiskChangeView {
    Create { id: u64, state: LogState },
    Append { id: u64, state: LogState, bytes: Seq<u8> },
    Remove { id: u64, state: LogState },
}

impl View for DiskChange {
    type V = DiskChangeView;

    open spec fn view(&self) -> DiskChangeView {
        match self {
            DiskChange::Create { id, state } => DiskChangeView::Create { id: *id, state: *state },
            DiskChange::Append { id, state, bytes } => DiskChangeView::Append {
                id: *id,
                state: *state,
                bytes: bytes@,
            },
            DiskChange::Remove { id, state } => DiskChangeView::Remove { id: *id, state: *state },
        }
    }
}

/// The files that stand for a directory: one for each segment, with the
/// segment's bytes.
pub open spec fn files_of(segments: Seq<SegmentView>) -> Map<(u64, LogState), Seq<u8>> {
    Map::new(
        |key: (u64, LogState)| has_segment(segments, key.0, key.1),
        |key: (u64, LogState)| data_of(segments, key.0, key.1),
    )
}

/// The files after one change.
pub open spec fn after_change(
    files: Map<(u64, LogState), Seq<u8>>,
    change: DiskChangeView,
) -> Map<(u64, LogState), Seq<u8>> {
    match change {
        DiskChangeView::Create { id, state } => if files.contains_key((id, state)) {
            files
        } else {
            files.insert((id, state), Seq::empty())
        },
        DiskChangeView::Append { id, state, bytes } => if files.contains_key((id, state)) {
            files.insert((id, state), files[(id, state)] + bytes)
        } else {
            files.insert((id, state), bytes)
        },
        DiskChangeView::Remove { id, state } => files.remove((id, state)),
    }
}

/// The files after a run of changes, made one after the other.
pub open spec fn after_changes(
    files: Map<(u64, LogState), Seq<u8>>,
    changes: Seq<DiskChangeView>,
) -> Map<(u64, LogState), Seq<u8>>
    decreases changes.len(),
{
    if changes.len() == 0 {
        files
    } else {
        after_change(after_changes(files, changes.drop_last()), changes.last())
    }
}

/// A store directory.
pub struct Directory {
    segments: Vec<Segment>,
    journal: Vec<DiskChange>,
    persisted: Ghost<Map<(u64, LogState), Seq<u8>>>,
}

impl View for Directory {
    type V = Seq<SegmentView>;

    closed spec fn view(&self) -> Seq<SegmentView> {
        self.segments@.map_values(|segment: Segment| segment@)
    }
}

impl Directory {
    /// The invariant of a directory: its segments stand in replay order,
    /// and the pending changes lead from the persisted files to it.
    pub open spec fn wf(&self) -> bool {
        in_replay_order(self@) && self.journaled()
    }

    /// The files as they were when the changes were last taken.
    pub closed spec fn persisted(&self) -> Map<(u64, LogState), Seq<u8>> {
        self.persisted@
    }

    /// The changes made since they were last taken, oldest first.
    pub closed spec fn pending(&self) -> Seq<DiskChangeView> {
        self.journal@.map_values(|change: DiskChange| change@)
    }

    /// Whether the pending changes, made to the persisted files, give the
    /// files that stand for the directory.
    pub open spec fn journaled(&self) -> bool {
        after_changes(self.persisted(), self.pending()) == files_of(self@)
    }

    /// Every segment of a directory fits in memory, so its length fits in a
    /// `u64`.
    pub proof fn lemma_sizes_fit(&self)
        ensures
            sizes_fit(self@),
    {
        assert forall|i: int| 0 <= i < self@.len() implies (#[trigger] self@[i]).data.len()
            <= u64::MAX by {
            let data = self.segments@[i].data;
            assert(self@[i].data == data@);
            assert(data@.len() == data.len());
        }
    }

    /// A directory without segments.
    pub fn new() -> (dir: Directory)
        ensures
            dir.wf(),
            dir@.len() == 0,
            dir.pending().len() == 0,
            dir.persisted() == files_of(dir@),
    {
        let dir = Directory {
            segments: Vec::new(),
            journal: Vec::new(),
            persisted: Ghost(Map::empty()),
        };
        proof {
            assert forall|id: u64, state: LogState| !#[trigger] has_segment(dir@, id, state) by {
                if has_segment(dir@, id, state) {
                    assert(is_at(dir@, index_of(dir@, id, state), id, state));
                }
            }
            assert(files_of(dir@) =~= Map::<(u64, LogState), Seq<u8>>::empty());
        }
        dir
    }

    /// Hands out the changes made since they were last taken, oldest
    /// first, and keeps none. Made in their order to the files as they
    /// were then, they give the files that stand for the directory.
    pub fn take_changes(&mut self) -> (changes: Vec<DiskChange>)
        ensures
            final(self)@ == old(self)@,
            changes@.map_values(|change: DiskChange| change@) == old(self).pending(),
            final(self).pending().len() == 0,
            final(self).persisted() == after_changes(old(self).persisted(), old(self).pending()),
            old(self).wf() ==> final(self).wf() && final(self).persisted() == files_of(
                final(self)@,
            ),
    {
        let mut changes: Vec<DiskChange> = Vec::new();
        std::mem::swap(&mut self.journal, &mut changes);
        self.persisted = Ghost(after_changes(old(self).persisted(), old(self).pending()));
        changes
    }

    /// How many segments the directory holds.
    pub fn len(&self) -> (count: usize)
        ensures
            count == self@.len(),
    {
        self.segments.len()
    }

    /// The segment at `index` in replay order.
    pub fn segment(&self, index: usize) -> (segment: &Segment)
        requires
            index < self@.len(),
        ensures
            segment@ == self@[index as int],
    {
        &self.segments[index]
    }

    /// Where the segment with this id and state stands, or where it would
    /// have to be put.
    fn locate(&self, id: u64, state: LogState) -> (place: (usize, bool))
        requires
            self.wf(),
        ensures
            place.0 <= self@.len(),
            place.0 == place_of(self@, id, state),
            place.1 == has_segment(self@, id, state),
            place.1 ==> is_at(self@, place.0 as int, id, state),
            forall|i: int|
                0 <= i < place.0 ==> key_before(
                    (#[trigger] self@[i]).id,
                    self@[i].state,
                    id,
                    state,
                ),
            forall|i: int|
                place.0 <= i < self@.len() && !(place.1 && i == place.0) ==> key_before(
                    id,
                    state,
                    (#[trigger] self@[i]).id,
                    self@[i].state,
                ),
    {
        let mut i: usize = 0;
        while i < self.segments.len()
            invariant
                i <= self.segments.len(),
                self.wf(),
                forall|k: int|
                    0 <= k < i ==> key_before(
                        (#[trigger] self@[k]).id,
                        self@[k].state,
                        id,
                        state,
                    ),
            decreases self.segments.len() - i,
        {
            let segment = &self.segments[i];
            assert(segment@ == self@[i as int]);
            let same_state = match (segment.state, state) {
                (LogState::Compacted, LogState::Compacted) => true,
                (LogState::Write, LogState::Write) => true,
                _ => false,
            };
            if segment.id == id && same_state {
                proof {
                    lemma_unique_place(self@, i as int, id, state);
                    assert forall|k: int|
                        i <= k < self@.len() && k != i implies key_before(
                        id,
                        state,
                        (#[trigger] self@[k]).id,
                        self@[k].state,
                    ) by {
                        assert(key_before(
                            self@[i as int].id,
                            self@[i as int].state,
                            self@[k].id,
                            self@[k].state,
                        ));
                    }
                }
                proof {
                    assert forall|k: int| i <= k < self@.len() implies !key_before(
                        (#[trigger] self@[k]).id,
                        self@[k].state,
                        id,
                        state,
                    ) by {
                        if k > i {
                            assert(key_before(id, state, self@[k].id, self@[k].state));
                        }
                    }
                    lemma_place_of(self@, i as int, id, state);
                }
                return (i, true);
            }
            let before = segment.id < id || (segment.id == id && match segment.state {
                LogState::Compacted => true,
                LogState::Write => false,
            });
            if !before {
                proof {
                    assert(key_before(id, state, self@[i as int].id, self@[i as int].state));
                    assert forall|k: int| i <= k < self@.len() implies key_before(
                        id,
                        state,
                        (#[trigger] self@[k]).id,
                        self@[k].state,
                    ) by {
                        if k > i {
                            assert(key_before(
                                self@[i as int].id,
                                self@[i as int].state,
                                self@[k].id,
                                self@[k].state,
                            ));
                        }
                    }
                    assert(!has_segment(self@, id, state)) by {
                        if has_segment(self@, id, state) {
                            let at = index_of(self@, id, state);
                            assert(is_at(self@, at, id, state));
                            if at < i {
                                assert(key_before(self@[at].id, self@[at].state, id, state));
                            } else {
                                assert(key_before(id, state, self@[at].id, self@[at].state));
                            }
                        }
                    }
                }
                proof {
                    assert forall|k: int| i <= k < self@.len() implies !key_before(
                        (#[trigger] self@[k]).id,
                        self@[k].state,
                        id,
                        state,
                    ) by {
                        assert(key_before(id, state, self@[k].id, self@[k].state));
                    }
                    lemma_place_of(self@, i as int, id, state);
                }
                return (i, false);
            }
            i = i + 1;
        }
        proof {
            assert(!has_segment(self@, id, state)) by {
                if has_segment(self@, id, state) {
                    let at = index_of(self@, id, state);
                    assert(is_at(self@, at, id, state));
                    assert(key_before(self@[at].id, self@[at].state, id, state));
                }
            }
        }
        proof {
            lemma_place_of(self@, i as int, id, state);
        }
        (i, false)
    }

    /// Whether the directory holds the segment with this id and state.
    pub fn contains(&self, id: u64, state: LogState) -> (found: bool)
        requires
            self.wf(),
        ensures
            found == has_segment(self@, id, state),
    {
        self.locate(id, state).1
    }

    /// The length in bytes of a segment, if the directory holds it.
    pub fn size_of(&self, id: u64, state: LogState) -> (size: Option<u64>)
        requires
            self.wf(),
        ensures
            size == if has_segment(self@, id, state) {
                Some(data_of(self@, id, state).len() as u64)
            } else {
                None
            },
            size is Some ==> size->0 == data_of(self@, id, state).len(),
    {
        let (place, found) = self.locate(id, state);
        if found {
            proof {
                lemma_unique_place(self@, place as int, id, state);
            }
            assert(self.segments[place as int]@ == self@[place as int]);
            Some(self.segments[place].data.len() as u64)
        } else {
            None
        }
    }

    /// Makes sure that the segment exists: an absent one is created empty,
    /// a present one is left as it is. Returns whether it was created.
    pub fn create(&mut self, id: u64, state: LogState) -> (created: bool)
        requires
            old(self).wf(),
        ensures
            final(self).wf(),
            created == !has_segment(old(self)@, id, state),
            !created ==> final(self)@ == old(self)@,
            created ==> final(self)@ == old(self)@.insert(
                place_of(old(self)@, id, state),
                SegmentView { id, state, data: Seq::empty() },
            ),
            has_segment(final(self)@, id, state),
            created ==> data_of(final(self)@, id, state) == Seq::<u8>::empty(),
            forall|other: u64, other_state: LogState|
                has_segment(final(self)@, other, other_state) == (has_segment(
                    old(self)@,
                    other,
                    other_state,
                ) || (other == id && other_state == state)),
            forall|other: u64, other_state: LogState|
                has_segment(old(self)@, other, other_state) ==> #[trigger] data_of(
                    final(self)@,
                    other,
                    other_state,
                ) == data_of(old(self)@, other, other_state),
            final(self).persisted() == old(self).persisted(),
            final(self).pending() == if created {
                old(self).pending().push(DiskChangeView::Create { id, state })
            } else {
                old(self).pending()
            },
    {
        let (place, found) = self.locate(id, state);
        if found {
            return false;
        }
        proof {
            lemma_insert_frame(self@, place as int, id, state);
        }
        self.segments.insert(place, Segment { id, state, data: Vec::new() });
        self.journal.push(DiskChange::Create { id, state });
        proof {
            assert(self@ =~= old(self)@.insert(
                place as int,
                SegmentView { id, state, data: Seq::empty() },
            ));
            let change = DiskChangeView::Create { id, state };
            assert(self.pending() =~= old(self).pending().push(change));
            assert(self.pending().drop_last() =~= old(self).pending());
            assert(files_of(self@) =~= after_change(files_of(old(self)@), change));
        }
        true
    }

    /// Appends `bytes` to a segment and returns the offset at which they
    /// start. Fails with `Io`, changing nothing, where the segment is absent.
    pub fn append(&mut self, id: u64, state: LogState, bytes: &[u8]) -> (start: Result<
        u64,
        KvsError,
    >)
        requires
            old(self).wf(),
        ensures
            final(self).wf(),
            final(self)@.len() == old(self)@.len(),
            match start {
                Ok(offset) => {
                    &&& has_segment(old(self)@, id, state)
                    &&& offset == data_of(old(self)@, id, state).len()
                    &&& data_of(final(self)@, id, state) == data_of(old(self)@, id, state)
                        + bytes@
                    &&& final(self)@ == old(self)@.update(
                        index_of(old(self)@, id, state),
                        SegmentView { id, state, data: data_of(old(self)@, id, state) + bytes@ },
                    )
                },
                Err(error) => {
                    &&& !has_segment(old(self)@, id, state)
                    &&& error == KvsError::Io
                    &&& final(self)@ == old(self)@
                },
            },
            forall|other: u64, other_state: LogState|
                has_segment(final(self)@, other, other_state) == has_segment(
                    old(self)@,
                    other,
                    other_state,
                ),
            forall|other: u64, other_state: LogState|
                has_segment(old(self)@, other, other_state) && !(other == id && other_state
                    == state) ==> #[trigger] data_of(final(self)@, other, other_state) == data_of(
                    old(self)@,
                    other,
                    other_state,
                ),
            final(self).persisted() == old(self).persisted(),
            final(self).pending() == if start is Ok {
                old(self).pending().push(DiskChangeView::Append { id, state, bytes: bytes@ })
            } else {
                old(self).pending()
            },
    {
        let (place, found) = self.locate(id, state);
        if !found {
            return Err(KvsError::Io);
        }
        proof {
            lemma_unique_place(self@, place as int, id, state);
            lemma_update_frame(
                self@,
                place as int,
                data_of(self@, id, state) + bytes@,
            );
        }
        let mut segment = self.segments.remove(place);
        assert(segment@ == old(self)@[place as int]);
        let offset = segment.data.len() as u64;
        segment.data.extend_from_slice(bytes);
        let ghost grown = segment@;
        assert(grown.data == data_of(old(self)@, id, state) + bytes@);
        self.segments.insert(place, segment);
        proof {
            let target = old(self)@.update(
                place as int,
                SegmentView { id, state, data: data_of(old(self)@, id, state) + bytes@ },
            );
            assert(self@.len() == target.len());
            assert forall|i: int| 0 <= i < target.len() implies self@[i] == target[i] by {
                if i != place {
                    assert(self.segments@[i] == old(self).segments@[i]);
                }
            }
            assert(self@ =~= target);
        }
        self.journal.push(DiskChange::Append { id, state, bytes: slice_to_vec(bytes) });
        proof {
            let change = DiskChangeView::Append { id, state, bytes: bytes@ };
            assert(self.pending() =~= old(self).pending().push(change));
            assert(self.pending().drop_last() =~= old(self).pending());
            assert(files_of(self@) =~= after_change(files_of(old(self)@), change));
        }
        Ok(offset)
    }

    /// Reads `size` bytes at offset `pos` of a segment. Fails with `Io`
    /// where the segment is absent or ends before `pos + size`.
    pub fn read_at(&self, id: u64, state: LogState, pos: u64, size: u64) -> (bytes: Result<
        Vec<u8>,
        KvsError,
    >)
        requires
            self.wf(),
        ensures
            match bytes {
                Ok(read) => {
                    &&& has_segment(self@, id, state)
                    &&& pos + size <= data_of(self@, id, state).len()
                    &&& read@ == data_of(self@, id, state).subrange(
                        pos as int,
                        pos + size,
                    )
                },
                Err(error) => {
                    &&& error == KvsError::Io
                    &&& !(has_segment(self@, id, state) && pos + size <= data_of(
                        self@,
                        id,
                        state,
                    ).len())
                },
            },
    {
        let (place, found) = self.locate(id, state);
        if !found {
            return Err(KvsError::Io);
        }
        proof {
            lemma_unique_place(self@, place as int, id, state);
        }
        let data = &self.segments[place].data;
        assert(data@ == self@[place as int].data);
        let len = data.len() as u64;
        if pos > len || size > len - pos {
            return Err(KvsError::Io);
        }
        let from = pos as usize;
        let to = (pos + size) as usize;
        let mut read: Vec<u8> = Vec::new();
        let mut i: usize = from;
        while i < to
            invariant
                from <= i <= to <= data@.len(),
                read@ == data@.subrange(from as int, i as int),
            decreases to - i,
        {
            read.push(data[i]);
            assert(read@ =~= data@.subrange(from as int, i + 1));
            i = i + 1;
        }
        Ok(read)
    }

    /// Deletes a segment. Returns whether there was one.
    pub fn remove_file(&mut self, id: u64, state: LogState) -> (removed: bool)
        requires
            old(self).wf(),
        ensures
            final(self).wf(),
            removed == has_segment(old(self)@, id, state),
            !removed ==> final(self)@ == old(self)@,
            removed ==> final(self)@ == old(self)@.remove(index_of(old(self)@, id, state)),
            forall|other: u64, other_state: LogState|
                has_segment(final(self)@, other, other_state) == (has_segment(
                    old(self)@,
                    other,
                    other_state,
                ) && !(other == id && other_state == state)),
            forall|other: u64, other_state: LogState|
                has_segment(final(self)@, other, other_state) ==> #[trigger] data_of(
                    final(self)@,
                    other,
                    other_state,
                ) == data_of(old(self)@, other, other_state),
            final(self).persisted() == old(self).persisted(),
            final(self).pending() == if removed {
                old(self).pending().push(DiskChangeView::Remove { id, state })
            } else {
                old(self).pending()
            },
    {
        let (place, found) = self.locate(id, state);
        if !found {
            return false;
        }
        proof {
            lemma_remove_frame(self@, place as int);
            lemma_unique_place(self@, place as int, id, state);
        }
        self.segments.remove(place);
        self.journal.push(DiskChange::Remove { id, state });
        proof {
            assert(self@ =~= old(self)@.remove(place as int));
            let change = DiskChangeView::Remove { id, state };
            assert(self.pending() =~= old(self).pending().push(change));
            assert(self.pending().drop_last() =~= old(self).pending());
            assert(files_of(self@) =~= after_change(files_of(old(self)@), change));
        }
        true
    }

    /// The id and state of every segment, in replay order.
    pub fn keys(&self) -> (keys: Vec<(u64, LogState)>)
        ensures
            keys@.len() == self@.len(),
            forall|i: int|
                0 <= i < keys@.len() ==> (#[trigger] keys@[i]) == (self@[i].id, self@[i].state),
    {
        let mut keys: Vec<(u64, LogState)> = Vec::new();
        let mut i: usize = 0;
        while i < self.segments.len()
            invariant
                i <= self.segments.len(),
                keys@.len() == i,
                forall|k: int|
                    0 <= k < i ==> (#[trigger] keys@[k]) == (self@[k].id, self@[k].state),
            decreases self.segments.len() - i,
        {
            let segment = &self.segments[i];
            assert(segment@ == self@[i as int]);
            keys.push((segment.id, segment.state));
            i = i + 1;
        }
        keys
    }

    /// The file name of the segment at `index`.
    pub fn file_name(&self, index: usize) -> (name: String)
        requires
            index < self@.len(),
        ensures
            name@ == segment_file_name(self@[index as int].id, self@[index as int].state),
    {
        let segment = &self.segments[index];
        assert(segment@ == self@[index as int]);
        log_file_name(segment.id, segment.state)
    }

    /// The directory that a listing of files stands for: each file whose
    /// name is that of a segment becomes that segment, with the file's
    /// bytes. Files with other names are left out, and of two files with
    /// one name the first counts.
    pub fn from_files(files: &Vec<(String, Vec<u8>)>) -> (dir: Directory)
        ensures
            dir.wf(),
            forall|id: u64, state: LogState| #[trigger]
                has_segment(dir@, id, state) == names_segment(files@, files@.len() as int, id, state),
            forall|id: u64, state: LogState| #[trigger]
                has_segment(dir@, id, state) ==> data_of(dir@, id, state) == files@[first_named(
                    files@,
                    id,
                    state,
                )].1@,
            dir.pending().len() == 0,
            dir.persisted() == files_of(dir@),
    {
        let mut dir = Directory::new();
        let mut i: usize = 0;
        proof {
            assert forall|id: u64, state: LogState| !#[trigger] has_segment(dir@, id, state) by {
                if has_segment(dir@, id, state) {
                    assert(is_at(dir@, index_of(dir@, id, state), id, state));
                }
            }
        }
        while i < files.len()
            invariant
                i <= files.len(),
                dir.wf(),
                forall|id: u64, state: LogState| #[trigger]
                    has_segment(dir@, id, state) == names_segment(files@, i as int, id, state),
                forall|id: u64, state: LogState| #[trigger]
                    has_segment(dir@, id, state) ==> data_of(dir@, id, state) == files@[first_named(
                        files@,
                        id,
                        state,
                    )].1@,
            decreases files.len() - i,
        {
            let ghost before = dir@;
            let name = files[i].0.as_str();
            match parse_filename(name) {
                Some((id, state)) => {
                    if dir.create(id, state) {
                        let appended = dir.append(id, state, files[i].1.as_slice());
                        proof {
                            assert(!names_segment(files@, i as int, id, state));
                            assert(is_first_named(files@, i as int, id, state));
                            lemma_first_named(files@, i as int, id, state);
                            assert(data_of(dir@, id, state) =~= files@[i as int].1@);
                        }
                    }
                    proof {
                        assert forall|other: u64, other_state: LogState| #[trigger]
                            has_segment(dir@, other, other_state) == names_segment(
                                files@,
                                i + 1,
                                other,
                                other_state,
                            ) by {
                            if files@[i as int].0@ == segment_file_name(other, other_state) {
                                lemma_file_name_injective(id, state, other, other_state);
                            }
                        }
                    }
                },
                None => {},
            }
            i = i + 1;
        }
        dir.journal = Vec::new();
        dir.persisted = Ghost(files_of(dir@));
        dir
    }
}

/// Whether one of the first `count` files is named as the segment with
/// this id and state.
pub open spec fn names_segment(
    files: Seq<(String, Vec<u8>)>,
    count: int,
    id: u64,
    state: LogState,
) -> bool {
    exists|i: int| 0 <= i < count && i < files.len() && (#[trigger] files[i]).0@ == segment_file_name(id, state)
}

/// Whether the file at `index` is the first that is named as the segment
/// with this id and state.
pub open spec fn is_first_named(
    files: Seq<(String, Vec<u8>)>,
    index: int,
    id: u64,
    state: LogState,
) -> bool {
    &&& 0 <= index < files.len()
    &&& files[index].0@ == segment_file_name(id, state)
    &&& !names_segment(files, index, id, state)
}

/// The place of the first file that is named as the segment with this id
/// and state.
pub open spec fn first_named(files: Seq<(String, Vec<u8>)>, id: u64, state: LogState) -> int {
    choose|index: int| is_first_named(files, index, id, state)
}

/// Only one file is the first of its name.
pub proof fn lemma_first_named(files: Seq<(String, Vec<u8>)>, index: int, id: u64, state: LogState)
    requires
        is_first_named(files, index, id, state),
    ensures
        first_named(files, id, state) == index,
{
    let found = first_named(files, id, state);
    assert(is_first_named(files, found, id, state));
    if found < index {
        assert(files[found].0@ == segment_file_name(id, state));
        assert(names_segment(files, index, id, state));
    } else if index < found {
        assert(files[index].0@ == segment_file_name(id, state));
        assert(names_segment(files, found, id, state));
    }
}

} // verus!
