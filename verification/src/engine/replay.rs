//! Recovery: rebuilding the key directory by reading every segment of a
//! directory, record by record, in replay order.

use crate::common::{Command, CommandView};
use crate::engine::directory::{Directory, SegmentView};
use crate::engine::keydir::{KeyDir, LogPointer};
use crate::engine::record::{
    command_fits,
    command_size,
    decode_command,
    decode_prefix,
    encode_command,
    lemma_decode_encoded,
    lemma_encode_decoded,
};
use crate::engine::segment::LogState;
use vstd::prelude::*;
use vstd::slice::*;

verus! {

/// The counter of uncompacted bytes after `size` more bytes became
/// garbage. The counter wraps round like the atomic it stands for.
pub open spec fn spec_add_size(counter: u64, size: u64) -> u64 {
    if counter + size > u64::MAX {
        (counter + size - 0x1_0000_0000_0000_0000) as u64
    } else {
        (counter + size) as u64
    }
}

/// Adds `size` to the counter of uncompacted bytes.
pub fn add_size(counter: u64, size: u64) -> (sum: u64)
    ensures
        sum == spec_add_size(counter, size),
{
    counter.wrapping_add(size)
}

/// What recovery has gathered so far: the key directory and the number of
/// bytes taken by records that later records made void.
pub struct Recovered {
    pub key_dir: Map<Seq<char>, LogPointer>,
    pub uncompacted: u64,
}

/// The state of recovery before any record was read.
pub open spec fn nothing_recovered() -> Recovered {
    Recovered { key_dir: Map::empty(), uncompacted: 0 }
}

/// The effect of a `Put` record on recovery: the key points at the record,
/// and the record it pointed at before, if any, becomes garbage.
pub open spec fn recover_put(so_far: Recovered, key: Seq<char>, pointer: LogPointer) -> Recovered {
    Recovered {
        key_dir: so_far.key_dir.insert(key, pointer),
        uncompacted: if so_far.key_dir.contains_key(key) {
            spec_add_size(so_far.uncompacted, so_far.key_dir[key].size)
        } else {
            so_far.uncompacted
        },
    }
}

/// The effect of an `Rm` record on recovery: the key leaves the directory,
/// and where it was there, the record it pointed at and the `Rm` record
/// itself become garbage. An `Rm` of a key that is not there counts for
/// nothing.
pub open spec fn recover_rm(so_far: Recovered, key: Seq<char>) -> Recovered {
    Recovered {
        key_dir: so_far.key_dir.remove(key),
        uncompacted: if so_far.key_dir.contains_key(key) {
            spec_add_size(
                spec_add_size(so_far.uncompacted, so_far.key_dir[key].size),
                command_size(CommandView::Rm { key }) as u64,
            )
        } else {
            so_far.uncompacted
        },
    }
}

/// Recovery over the records of one segment from offset `pos` on. Reading
/// stops at the end of the segment and at the first bytes that are no `Put`
/// or `Rm` record, such as a record cut short by a crash.
pub open spec fn recover_segment(
    data: Seq<u8>,
    pos: int,
    id: u64,
    state: LogState,
    so_far: Recovered,
) -> Recovered
    decreases data.len() - pos,
    via recover_segment_ends
{
    if 0 <= pos < data.len() {
        match decode_command(data.subrange(pos, data.len() as int)) {
            Some(CommandView::Put { key, value }) => {
                let size = command_size(CommandView::Put { key, value });
                recover_segment(
                    data,
                    pos + size,
                    id,
                    state,
                    recover_put(
                        so_far,
                        key,
                        LogPointer { pos: pos as u64, size: size as u64, log: id, log_state: state },
                    ),
                )
            },
            Some(CommandView::Rm { key }) => {
                let size = command_size(CommandView::Rm { key });
                recover_segment(data, pos + size, id, state, recover_rm(so_far, key))
            },
            _ => so_far,
        }
    } else {
        so_far
    }
}

/// Every record takes some bytes and ends inside the segment, so reading a
/// segment comes to an end.
#[via_fn]
proof fn recover_segment_ends(data: Seq<u8>, pos: int, id: u64, state: LogState, so_far: Recovered) {
    if 0 <= pos < data.len() {
        let rest = data.subrange(pos, data.len() as int);
        if decode_command(rest) is Some {
            lemma_encode_decoded(rest);
        }
    }
}

/// Recovery over all segments of a directory, in the order they stand in.
pub open spec fn recover(segments: Seq<SegmentView>) -> Recovered
    decreases segments.len(),
{
    if segments.len() == 0 {
        nothing_recovered()
    } else {
        recover_segment(
            segments.last().data,
            0,
            segments.last().id,
            segments.last().state,
            recover(segments.drop_last()),
        )
    }
}

/// The greatest segment id in a directory, or 0 where it has no segment.
pub open spec fn greatest_id(segments: Seq<SegmentView>) -> u64 {
    if segments.len() == 0 {
        0
    } else {
        segments.last().id
    }
}

/// Whether the bytes of a segment from `pos` on are `Put` and `Rm` records
/// and nothing else, so that recovery reads the segment to its end.
pub open spec fn clean_from(data: Seq<u8>, pos: int) -> bool
    decreases data.len() - pos,
    via clean_from_ends
{
    if pos == data.len() {
        true
    } else if 0 <= pos < data.len() {
        match decode_command(data.subrange(pos, data.len() as int)) {
            Some(CommandView::Put { key, value }) => clean_from(
                data,
                pos + command_size(CommandView::Put { key, value }),
            ),
            Some(CommandView::Rm { key }) => clean_from(
                data,
                pos + command_size(CommandView::Rm { key }),
            ),
            _ => false,
        }
    } else {
        false
    }
}

/// Every record takes some bytes and ends inside the segment.
#[via_fn]
proof fn clean_from_ends(data: Seq<u8>, pos: int) {
    if 0 <= pos < data.len() {
        let rest = data.subrange(pos, data.len() as int);
        if decode_command(rest) is Some {
            lemma_encode_decoded(rest);
        }
    }
}

/// The effect of one record on recovery, where the record stands at offset
/// `pos` of the segment `id` in state `state`. A `Get` record has none.
pub open spec fn recover_record(
    so_far: Recovered,
    cmd: CommandView,
    pos: int,
    id: u64,
    state: LogState,
) -> Recovered {
    match cmd {
        CommandView::Put { key, value } => recover_put(
            so_far,
            key,
            LogPointer {
                pos: pos as u64,
                size: command_size(cmd) as u64,
                log: id,
                log_state: state,
            },
        ),
        CommandView::Rm { key } => recover_rm(so_far, key),
        CommandView::Get { key } => so_far,
    }
}

/// A record is read the same whatever bytes are appended behind it.
pub proof fn lemma_decode_stable(data: Seq<u8>, pos: int, tail: Seq<u8>)
    requires
        0 <= pos < data.len(),
        decode_command(data.subrange(pos, data.len() as int)) is Some,
    ensures
        decode_command((data + tail).subrange(pos, (data + tail).len() as int)) == decode_command(
            data.subrange(pos, data.len() as int),
        ),
{
    let rest = data.subrange(pos, data.len() as int);
    let cmd = decode_command(rest)->0;
    lemma_encode_decoded(rest);
    let size = command_size(cmd);
    let longer = (data + tail).subrange(pos, (data + tail).len() as int);
    let behind = rest.subrange(size, rest.len() as int) + tail;
    assert(longer =~= encode_command(cmd) + behind);
    lemma_decode_encoded(cmd, behind);
}

/// Recovery over a clean segment with one more record appended is recovery
/// over the segment, then the effect of that record; and the longer
/// segment is clean again.
pub proof fn lemma_recover_appended(
    data: Seq<u8>,
    pos: int,
    id: u64,
    state: LogState,
    so_far: Recovered,
    cmd: CommandView,
)
    requires
        clean_from(data, pos),
        command_fits(cmd),
        !(cmd is Get),
    ensures
        recover_segment(data + encode_command(cmd), pos, id, state, so_far) == recover_record(
            recover_segment(data, pos, id, state, so_far),
            cmd,
            data.len() as int,
            id,
            state,
        ),
        clean_from(data + encode_command(cmd), pos),
    decreases data.len() - pos,
{
    let record = encode_command(cmd);
    let longer = data + record;
    lemma_decode_encoded(cmd, Seq::empty());
    assert(record + Seq::<u8>::empty() =~= record);
    if pos == data.len() {
        assert(longer.subrange(pos, longer.len() as int) =~= record);
        let end = pos + command_size(cmd);
        assert(end == longer.len());
        assert(clean_from(longer, end));
        match cmd {
            CommandView::Put { key, value } => {
                assert(recover_segment(longer, pos, id, state, so_far) == recover_segment(
                    longer,
                    end,
                    id,
                    state,
                    recover_record(so_far, cmd, pos, id, state),
                ));
            },
            CommandView::Rm { key } => {
                assert(recover_segment(longer, pos, id, state, so_far) == recover_segment(
                    longer,
                    end,
                    id,
                    state,
                    recover_record(so_far, cmd, pos, id, state),
                ));
            },
            CommandView::Get { key } => {},
        }
    } else {
        let rest = data.subrange(pos, data.len() as int);
        lemma_decode_stable(data, pos, record);
        lemma_encode_decoded(rest);
        match decode_command(rest) {
            Some(CommandView::Put { key, value }) => {
                let read = CommandView::Put { key, value };
                lemma_recover_appended(
                    data,
                    pos + command_size(read),
                    id,
                    state,
                    recover_record(so_far, read, pos, id, state),
                    cmd,
                );
            },
            Some(CommandView::Rm { key }) => {
                let read = CommandView::Rm { key };
                lemma_recover_appended(
                    data,
                    pos + command_size(read),
                    id,
                    state,
                    recover_record(so_far, read, pos, id, state),
                    cmd,
                );
            },
            _ => {},
        }
    }
}

/// Bytes that are a record cut short are no record.
pub proof fn lemma_cut_record(cmd: CommandView, cut: int)
    requires
        command_fits(cmd),
        0 <= cut < encode_command(cmd).len(),
    ensures
        decode_command(encode_command(cmd).subrange(0, cut)) is None,
{
    let whole = encode_command(cmd);
    let torn = whole.subrange(0, cut);
    lemma_decode_encoded(cmd, Seq::empty());
    assert(whole + Seq::<u8>::empty() =~= whole);
    if decode_command(torn) is Some {
        let read = decode_command(torn)->0;
        lemma_encode_decoded(torn);
        let size = command_size(read);
        let behind = whole.subrange(size, whole.len() as int);
        assert(whole =~= encode_command(read) + behind);
        lemma_decode_encoded(read, behind);
    }
}

/// Recovery over a clean segment with a torn tail behind it is recovery
/// over the segment without the tail: every complete record is read and
/// the tail is left alone.
pub proof fn lemma_recover_torn(
    data: Seq<u8>,
    pos: int,
    id: u64,
    state: LogState,
    so_far: Recovered,
    tail: Seq<u8>,
)
    requires
        clean_from(data, pos),
        decode_command(tail) is None,
    ensures
        recover_segment(data + tail, pos, id, state, so_far) == recover_segment(
            data,
            pos,
            id,
            state,
            so_far,
        ),
    decreases data.len() - pos,
{
    let longer = data + tail;
    if pos == data.len() {
        assert(longer.subrange(pos, longer.len() as int) =~= tail);
    } else {
        let rest = data.subrange(pos, data.len() as int);
        lemma_decode_stable(data, pos, tail);
        lemma_encode_decoded(rest);
        match decode_command(rest) {
            Some(CommandView::Put { key, value }) => {
                let read = CommandView::Put { key, value };
                lemma_recover_torn(
                    data,
                    pos + command_size(read),
                    id,
                    state,
                    recover_record(so_far, read, pos, id, state),
                    tail,
                );
            },
            Some(CommandView::Rm { key }) => {
                let read = CommandView::Rm { key };
                lemma_recover_torn(
                    data,
                    pos + command_size(read),
                    id,
                    state,
                    recover_record(so_far, read, pos, id, state),
                    tail,
                );
            },
            _ => {},
        }
    }
}

/// Whether every segment from `from` on is empty.
pub open spec fn empty_from(segments: Seq<SegmentView>, from: int) -> bool {
    forall|i: int| from <= i < segments.len() ==> (#[trigger] segments[i]).data.len() == 0
}

/// Recovery is not changed by an empty segment, wherever it stands.
pub proof fn lemma_recover_insert_empty(segments: Seq<SegmentView>, place: int, added: SegmentView)
    requires
        0 <= place <= segments.len(),
        added.data.len() == 0,
    ensures
        recover(segments.insert(place, added)) == recover(segments),
    decreases segments.len() - place,
{
    let grown = segments.insert(place, added);
    if place == segments.len() {
        assert(grown.drop_last() =~= segments);
        assert(grown.last() == added);
    } else {
        lemma_recover_insert_empty(segments.drop_last(), place, added);
        assert(grown.drop_last() =~= segments.drop_last().insert(place, added));
        assert(grown.last() == segments.last());
    }
}

/// Recovery over a directory in which a record was appended to a clean
/// segment that has only empty segments behind it is recovery over the
/// directory as it was, then the effect of that record.
pub proof fn lemma_recover_append(segments: Seq<SegmentView>, index: int, cmd: CommandView)
    requires
        0 <= index < segments.len(),
        empty_from(segments, index + 1),
        clean_from(segments[index].data, 0),
        command_fits(cmd),
        !(cmd is Get),
    ensures
        recover(
            segments.update(
                index,
                SegmentView {
                    id: segments[index].id,
                    state: segments[index].state,
                    data: segments[index].data + encode_command(cmd),
                },
            ),
        ) == recover_record(
            recover(segments),
            cmd,
            segments[index].data.len() as int,
            segments[index].id,
            segments[index].state,
        ),
    decreases segments.len() - index,
{
    let longer = SegmentView {
        id: segments[index].id,
        state: segments[index].state,
        data: segments[index].data + encode_command(cmd),
    };
    let changed = segments.update(index, longer);
    if index == segments.len() - 1 {
        assert(changed.drop_last() =~= segments.drop_last());
        assert(changed.last() == longer);
        lemma_recover_appended(
            segments[index].data,
            0,
            segments[index].id,
            segments[index].state,
            recover(segments.drop_last()),
            cmd,
        );
    } else {
        let shorter = segments.drop_last();
        assert(segments.last().data.len() == 0);
        assert(changed.last() == segments.last());
        assert(changed.drop_last() =~= shorter.update(index, longer));
        assert(shorter[index] == segments[index]);
        assert(empty_from(shorter, index + 1)) by {
            assert forall|i: int| index + 1 <= i < shorter.len() implies (
            #[trigger] shorter[i]).data.len() == 0 by {
                assert(shorter[i] == segments[i]);
            }
        }
        lemma_recover_append(shorter, index, cmd);
    }
}

/// Recovery over a directory in which bytes that are no record stand
/// behind a clean segment that has only empty segments behind it is
/// recovery over the directory without those bytes.
pub proof fn lemma_recover_torn_at(segments: Seq<SegmentView>, index: int, tail: Seq<u8>)
    requires
        0 <= index < segments.len(),
        empty_from(segments, index + 1),
        clean_from(segments[index].data, 0),
        decode_command(tail) is None,
    ensures
        recover(
            segments.update(
                index,
                SegmentView {
                    id: segments[index].id,
                    state: segments[index].state,
                    data: segments[index].data + tail,
                },
            ),
        ) == recover(segments),
    decreases segments.len() - index,
{
    let torn = SegmentView {
        id: segments[index].id,
        state: segments[index].state,
        data: segments[index].data + tail,
    };
    let changed = segments.update(index, torn);
    if index == segments.len() - 1 {
        assert(changed.drop_last() =~= segments.drop_last());
        assert(changed.last() == torn);
        lemma_recover_torn(
            segments[index].data,
            0,
            segments[index].id,
            segments[index].state,
            recover(segments.drop_last()),
            tail,
        );
    } else {
        let shorter = segments.drop_last();
        assert(segments.last().data.len() == 0);
        assert(changed.last() == segments.last());
        assert(changed.drop_last() =~= shorter.update(index, torn));
        assert(shorter[index] == segments[index]);
        assert(empty_from(shorter, index + 1)) by {
            assert forall|i: int| index + 1 <= i < shorter.len() implies (
            #[trigger] shorter[i]).data.len() == 0 by {
                assert(shorter[i] == segments[i]);
            }
        }
        lemma_recover_torn_at(shorter, index, tail);
    }
}

/// Rebuilds the key directory from the segments of `dir`. Returns it with
/// the count of uncompacted bytes and the greatest segment id in use.
pub fn build_key_dir(dir: &Directory) -> (rebuilt: (KeyDir, u64, u64))
    requires
        dir.wf(),
    ensures
        rebuilt.0@ == recover(dir@).key_dir,
        rebuilt.1 == recover(dir@).uncompacted,
        rebuilt.2 == greatest_id(dir@),
{
    let mut key_dir = KeyDir::new();
    let mut uncompacted_size: u64 = 0;
    let mut log_counter: u64 = 0;
    let count = dir.len();
    let mut index: usize = 0;
    assert(dir@.subrange(0, 0) =~= Seq::<SegmentView>::empty());
    while index < count
        invariant
            index <= count,
            count == dir@.len(),
            dir.wf(),
            key_dir@ == recover(dir@.subrange(0, index as int)).key_dir,
            uncompacted_size == recover(dir@.subrange(0, index as int)).uncompacted,
            log_counter == greatest_id(dir@.subrange(0, index as int)),
        decreases count - index,
    {
        let segment = dir.segment(index);
        let ghost before = recover(dir@.subrange(0, index as int));
        let ghost data = segment.data@;
        let len = segment.data.len();
        let mut pos: usize = 0;
        let mut reading = true;
        while reading
            invariant
                pos <= len,
                len == data.len(),
                data == segment.data@,
                recover_segment(
                    data,
                    0,
                    segment.id,
                    segment.state,
                    before,
                ) == if reading {
                    recover_segment(
                        data,
                        pos as int,
                        segment.id,
                        segment.state,
                        Recovered { key_dir: key_dir@, uncompacted: uncompacted_size },
                    )
                } else {
                    Recovered { key_dir: key_dir@, uncompacted: uncompacted_size }
                },
            decreases len - pos + if reading { 1int } else { 0int },
        {
            if pos >= len {
                reading = false;
            } else {
                let rest = slice_subrange(segment.data.as_slice(), pos, len);
                match decode_prefix(rest) {
                    Ok((Command::Put { key, value: _ }, size)) => {
                        let pointer = LogPointer {
                            pos: pos as u64,
                            size: size as u64,
                            log: segment.id,
                            log_state: segment.state,
                        };
                        match key_dir.insert(key, pointer) {
                            Some(old_entry) => {
                                uncompacted_size = add_size(uncompacted_size, old_entry.size);
                            },
                            None => {},
                        }
                        pos = pos + size;
                    },
                    Ok((Command::Rm { key }, size)) => {
                        match key_dir.remove(key.as_str()) {
                            Some(old_entry) => {
                                uncompacted_size = add_size(
                                    add_size(uncompacted_size, old_entry.size),
                                    size as u64,
                                );
                            },
                            None => {},
                        }
                        pos = pos + size;
                    },
                    _ => {
                        reading = false;
                    },
                }
            }
        }
        log_counter = segment.id;
        proof {
            let next = dir@.subrange(0, index + 1);
            assert(next.drop_last() =~= dir@.subrange(0, index as int));
            assert(next.last() == dir@[index as int]);
        }
        index = index + 1;
    }
    assert(dir@.subrange(0, count as int) =~= dir@);
    (key_dir, uncompacted_size, log_counter)
}

} // verus!
