//! How a store is opened on a directory: which segment it appends to,
//! which segment id is the first free one, and what a torn tail changes.

use crate::common::CommandView;
use crate::engine::directory::{
    has_segment,
    in_replay_order,
    index_of,
    is_at,
    key_before,
    SegmentView,
};
use crate::engine::record::{command_fits, decode_command, encode_command};
use crate::engine::replay::{clean_from, greatest_id, recover};
use crate::engine::segment::LogState;
use vstd::prelude::*;

verus! {

/// The id of the write segment that is replayed last, if the directory has
/// a write segment.
pub open spec fn last_write(segments: Seq<SegmentView>) -> Option<u64>
    decreases segments.len(),
{
    if segments.len() == 0 {
        None
    } else if segments.last().state == LogState::Write {
        Some(segments.last().id)
    } else {
        last_write(segments.drop_last())
    }
}

/// The id of the segment that a store opened on this directory appends to:
/// its last write segment, or a new segment behind all others.
pub open spec fn active_log(segments: Seq<SegmentView>) -> int {
    match last_write(segments) {
        Some(id) => id as int,
        None => if segments.len() == 0 {
            0
        } else {
            greatest_id(segments) + 1
        },
    }
}

/// The first segment id that is free after a store was opened on this
/// directory.
pub open spec fn first_free_log(segments: Seq<SegmentView>) -> int {
    match last_write(segments) {
        Some(id) => greatest_id(segments) + 1,
        None => active_log(segments) + 1,
    }
}

/// Whether a store can be opened on this directory: a segment id must be
/// left for the next segment.
pub open spec fn can_open(segments: Seq<SegmentView>) -> bool {
    first_free_log(segments) <= u64::MAX
}

/// The directory after a store was opened on it: as before, with a new and
/// empty active segment behind the others where it had no write segment.
pub open spec fn opened_segments(segments: Seq<SegmentView>) -> Seq<SegmentView> {
    match last_write(segments) {
        Some(id) => segments,
        None => segments.push(
            SegmentView { id: active_log(segments) as u64, state: LogState::Write, data: Seq::empty() },
        ),
    }
}

/// Opening a store does not change what recovery finds in the directory.
pub proof fn lemma_opened_recover(segments: Seq<SegmentView>)
    ensures
        recover(opened_segments(segments)) == recover(segments),
{
    if last_write(segments) is None {
        let added = SegmentView {
            id: active_log(segments) as u64,
            state: LogState::Write,
            data: Seq::empty(),
        };
        crate::engine::replay::lemma_recover_insert_empty(segments, segments.len() as int, added);
        assert(segments.insert(segments.len() as int, added) =~= segments.push(added));
    }
}

/// In a directory in replay order no segment has a greater id than the last.
pub proof fn lemma_greatest_id(segments: Seq<SegmentView>)
    requires
        in_replay_order(segments),
    ensures
        forall|id: u64, state: LogState| #[trigger]
            has_segment(segments, id, state) ==> id <= greatest_id(segments),
{
    assert forall|id: u64, state: LogState| #[trigger]
        has_segment(segments, id, state) implies id <= greatest_id(segments) by {
        let at = index_of(segments, id, state);
        assert(is_at(segments, at, id, state));
        if at < segments.len() - 1 {
            assert(key_before(
                segments[at].id,
                segments[at].state,
                segments[segments.len() - 1].id,
                segments[segments.len() - 1].state,
            ));
        }
    }
}

/// The last write segment of a directory is one of its segments.
pub proof fn lemma_last_write(segments: Seq<SegmentView>)
    ensures
        match last_write(segments) {
            Some(id) => has_segment(segments, id, LogState::Write),
            None => forall|id: u64| !has_segment(segments, id, LogState::Write),
        },
    decreases segments.len(),
{
    if segments.len() == 0 {
        assert forall|id: u64| !has_segment(segments, id, LogState::Write) by {
            if has_segment(segments, id, LogState::Write) {
                let at = index_of(segments, id, LogState::Write);
                assert(is_at(segments, at, id, LogState::Write));
            }
        }
    } else if segments.last().state == LogState::Write {
        assert(is_at(segments, segments.len() - 1, segments.last().id, LogState::Write));
    } else {
        let shorter = segments.drop_last();
        lemma_last_write(shorter);
        match last_write(shorter) {
            Some(id) => {
                let at = index_of(shorter, id, LogState::Write);
                assert(is_at(shorter, at, id, LogState::Write));
                assert(is_at(segments, at, id, LogState::Write));
            },
            None => {
                assert forall|id: u64| !has_segment(segments, id, LogState::Write) by {
                    if has_segment(segments, id, LogState::Write) {
                        let at = index_of(segments, id, LogState::Write);
                        assert(is_at(segments, at, id, LogState::Write));
                        assert(is_at(shorter, at, id, LogState::Write));
                        assert(has_segment(shorter, id, LogState::Write));
                    }
                }
            },
        }
    }
}

/// No write segment stands behind the last write segment.
pub proof fn lemma_last_write_place(segments: Seq<SegmentView>)
    requires
        in_replay_order(segments),
        last_write(segments) is Some,
    ensures
        has_segment(segments, last_write(segments)->0, LogState::Write),
        forall|j: int|
            0 <= j < segments.len() && (#[trigger] segments[j]).state == LogState::Write ==> j
                <= index_of(segments, last_write(segments)->0, LogState::Write),
    decreases segments.len(),
{
    let id = last_write(segments)->0;
    let last = segments.len() - 1;
    if segments.last().state == LogState::Write {
        assert(is_at(segments, last, id, LogState::Write));
        crate::engine::directory::lemma_unique_place(segments, last, id, LogState::Write);
    } else {
        let shorter = segments.drop_last();
        assert(in_replay_order(shorter)) by {
            assert forall|i: int, j: int| 0 <= i < j < shorter.len() implies key_before(
                (#[trigger] shorter[i]).id,
                shorter[i].state,
                (#[trigger] shorter[j]).id,
                shorter[j].state,
            ) by {
                assert(key_before(
                    segments[i].id,
                    segments[i].state,
                    segments[j].id,
                    segments[j].state,
                ));
            }
        }
        lemma_last_write_place(shorter);
        let at = index_of(shorter, id, LogState::Write);
        assert(is_at(shorter, at, id, LogState::Write));
        assert(is_at(segments, at, id, LogState::Write));
        crate::engine::directory::lemma_unique_place(segments, at, id, LogState::Write);
        assert forall|j: int|
            0 <= j < segments.len() && (#[trigger] segments[j]).state
                == LogState::Write implies j <= at by {
            assert(shorter[j] == segments[j]);
        }
    }
}

/// A directory whose last segment ends in a record that was cut short is
/// recovered as the directory without the torn bytes, and can be opened if
/// that one can: every record before the tear is read.
pub proof fn law_torn_tail(segments: Seq<SegmentView>, cmd: CommandView, cut: int)
    requires
        segments.len() > 0,
        clean_from(segments.last().data, 0),
        command_fits(cmd),
        0 <= cut < encode_command(cmd).len(),
    ensures
        ({
            let torn = segments.update(
                segments.len() - 1,
                SegmentView {
                    id: segments.last().id,
                    state: segments.last().state,
                    data: segments.last().data + encode_command(cmd).subrange(0, cut),
                },
            );
            &&& recover(torn) == recover(segments)
            &&& can_open(torn) == can_open(segments)
            &&& active_log(torn) == active_log(segments)
        }),
{
    crate::engine::replay::lemma_cut_record(cmd, cut);
    lemma_unread_tail(segments, encode_command(cmd).subrange(0, cut));
}

/// Bytes that are no record, behind the last segment, change nothing of
/// what recovery finds and of how the directory is opened.
pub proof fn lemma_unread_tail(segments: Seq<SegmentView>, tail: Seq<u8>)
    requires
        segments.len() > 0,
        clean_from(segments.last().data, 0),
        decode_command(tail) is None,
    ensures
        ({
            let torn = segments.update(
                segments.len() - 1,
                SegmentView {
                    id: segments.last().id,
                    state: segments.last().state,
                    data: segments.last().data + tail,
                },
            );
            &&& recover(torn) == recover(segments)
            &&& can_open(torn) == can_open(segments)
            &&& active_log(torn) == active_log(segments)
        }),
{
    let last = segments.len() - 1;
    let torn = segments.update(
        last,
        SegmentView {
            id: segments.last().id,
            state: segments.last().state,
            data: segments.last().data + tail,
        },
    );
    assert(torn.drop_last() =~= segments.drop_last());
    crate::engine::replay::lemma_recover_torn(
        segments.last().data,
        0,
        segments.last().id,
        segments.last().state,
        recover(segments.drop_last()),
        tail,
    );
    lemma_last_write_of_keys(segments, torn);
}

/// Which write segment is the last depends on the ids and states of the
/// segments alone.
pub proof fn lemma_last_write_of_keys(segments: Seq<SegmentView>, other: Seq<SegmentView>)
    requires
        segments.len() == other.len(),
        forall|i: int|
            0 <= i < segments.len() ==> (#[trigger] segments[i]).id == other[i].id
                && segments[i].state == other[i].state,
    ensures
        last_write(segments) == last_write(other),
    decreases segments.len(),
{
    if segments.len() > 0 {
        assert(segments.last().id == other.last().id && segments.last().state
            == other.last().state) by {
            assert(segments[segments.len() - 1].id == other[segments.len() - 1].id);
        }
        let shorter = segments.drop_last();
        let other_shorter = other.drop_last();
        assert forall|i: int| 0 <= i < shorter.len() implies (#[trigger] shorter[i]).id
            == other_shorter[i].id && shorter[i].state == other_shorter[i].state by {
            assert(segments[i].id == other[i].id);
        }
        lemma_last_write_of_keys(shorter, other_shorter);
    }
}

} // verus!
