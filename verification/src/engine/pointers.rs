//! What it means that a pointer of the key directory refers to a record:
//! when it does, what value it stands for, that it keeps doing so while
//! segments grow, and how many bytes the records pointed at take.

use crate::common::CommandView;
use crate::engine::directory::{
    data_of,
    has_segment,
    in_replay_order,
    lemma_unique_place,
    sizes_fit,
    SegmentView,
};
use crate::engine::keydir::LogPointer;
use crate::engine::reader::{handle_key, readable, record_at};
use crate::engine::record::{
    command_fits,
    command_size,
    decode_command,
    encode_command,
    lemma_decode_encoded,
    lemma_encode_decoded,
};
use crate::engine::replay::{recover, recover_put, recover_rm, recover_segment, Recovered};
use crate::engine::segment::LogState;
use vstd::prelude::*;

verus! {

/// Whether `pointer` refers to a `Put` record of `key` and to nothing more.
pub open spec fn points_at(segments: Seq<SegmentView>, key: Seq<char>, pointer: LogPointer) -> bool {
    &&& readable(segments, pointer)
    &&& match decode_command(record_at(segments, pointer)) {
        Some(CommandView::Put { key: stored, value }) => stored == key && command_size(
            CommandView::Put { key: stored, value },
        ) == pointer.size,
        _ => false,
    }
}

/// The value of the `Put` record that `pointer` refers to.
pub open spec fn value_at(segments: Seq<SegmentView>, pointer: LogPointer) -> Seq<char> {
    match decode_command(record_at(segments, pointer)) {
        Some(CommandView::Put { key, value }) => value,
        _ => Seq::empty(),
    }
}

/// The key-value map that a key directory stands for over given segments.
pub open spec fn stored_map(segments: Seq<SegmentView>, key_dir: Map<Seq<char>, LogPointer>) -> Map<
    Seq<char>,
    Seq<char>,
> {
    Map::new(
        |key: Seq<char>| key_dir.contains_key(key),
        |key: Seq<char>| value_at(segments, key_dir[key]),
    )
}

/// Whether every segment of `before` is still in `after` and starts there
/// with the bytes it had.
pub open spec fn grown_from(before: Seq<SegmentView>, after: Seq<SegmentView>) -> bool {
    forall|id: u64, state: LogState| #[trigger]
        has_segment(before, id, state) ==> has_segment(after, id, state) && data_of(
            before,
            id,
            state,
        ).is_prefix_of(data_of(after, id, state))
}

/// A pointer that refers to a record keeps referring to it while its
/// segment only grows.
pub proof fn lemma_pointer_kept(
    before: Seq<SegmentView>,
    after: Seq<SegmentView>,
    key: Seq<char>,
    pointer: LogPointer,
)
    requires
        points_at(before, key, pointer),
        has_segment(after, pointer.log, pointer.log_state),
        data_of(before, pointer.log, pointer.log_state).is_prefix_of(
            data_of(after, pointer.log, pointer.log_state),
        ),
    ensures
        points_at(after, key, pointer),
        record_at(after, pointer) == record_at(before, pointer),
        value_at(after, pointer) == value_at(before, pointer),
{
    let old_data = data_of(before, pointer.log, pointer.log_state);
    let new_data = data_of(after, pointer.log, pointer.log_state);
    assert(new_data.subrange(0, old_data.len() as int) == old_data);
    let kept = new_data.subrange(0, old_data.len() as int);
    assert(record_at(after, pointer) =~= record_at(before, pointer)) by {
        assert forall|i: int| 0 <= i < pointer.size implies #[trigger] record_at(
            after,
            pointer,
        )[i] == record_at(before, pointer)[i] by {
            assert(kept[pointer.pos + i] == new_data[pointer.pos + i]);
        }
    }
}

/// The bytes that a valid pointer refers to are the encoding of the `Put`
/// record of its key and value.
pub proof fn lemma_pointed_record(segments: Seq<SegmentView>, key: Seq<char>, pointer: LogPointer)
    requires
        points_at(segments, key, pointer),
    ensures
        record_at(segments, pointer) == encode_command(
            CommandView::Put { key, value: value_at(segments, pointer) },
        ),
        command_fits(CommandView::Put { key, value: value_at(segments, pointer) }),
{
    let record = record_at(segments, pointer);
    lemma_encode_decoded(record);
    assert(record.subrange(0, record.len() as int) =~= record);
}

/// A record that was just appended is pointed at by its offset and size.
pub proof fn lemma_appended_record(
    segments: Seq<SegmentView>,
    cmd: CommandView,
    pointer: LogPointer,
    start: Seq<u8>,
)
    requires
        command_fits(cmd),
        has_segment(segments, pointer.log, pointer.log_state),
        data_of(segments, pointer.log, pointer.log_state) == start + encode_command(cmd),
        pointer.pos == start.len(),
        pointer.size == encode_command(cmd).len(),
    ensures
        readable(segments, pointer),
        record_at(segments, pointer) == encode_command(cmd),
        decode_command(record_at(segments, pointer)) == Some(cmd),
        pointer.size == command_size(cmd),
{
    let data = data_of(segments, pointer.log, pointer.log_state);
    assert(record_at(segments, pointer) =~= encode_command(cmd));
    lemma_decode_encoded(cmd, Seq::empty());
    assert(encode_command(cmd) + Seq::<u8>::empty() =~= encode_command(cmd));
}

/// Recovery that starts from valid pointers ends with valid pointers: what
/// it gathers from a segment refers to the `Put` records of that segment.
pub proof fn lemma_recovered_segment_points(
    segments: Seq<SegmentView>,
    index: int,
    pos: int,
    so_far: Recovered,
)
    requires
        in_replay_order(segments),
        sizes_fit(segments),
        0 <= index < segments.len(),
        0 <= pos,
        forall|key: Seq<char>| #[trigger]
            so_far.key_dir.contains_key(key) ==> points_at(segments, key, so_far.key_dir[key]),
    ensures
        ({
            let gathered = recover_segment(
                segments[index].data,
                pos,
                segments[index].id,
                segments[index].state,
                so_far,
            );
            forall|key: Seq<char>| #[trigger]
                gathered.key_dir.contains_key(key) ==> points_at(
                    segments,
                    key,
                    gathered.key_dir[key],
                )
        }),
    decreases segments[index].data.len() - pos,
{
    let data = segments[index].data;
    let id = segments[index].id;
    let state = segments[index].state;
    if pos < data.len() {
        let rest = data.subrange(pos, data.len() as int);
        match decode_command(rest) {
            Some(CommandView::Put { key, value }) => {
                let cmd = CommandView::Put { key, value };
                let size = command_size(cmd);
                lemma_encode_decoded(rest);
                let pointer = LogPointer {
                    pos: pos as u64,
                    size: size as u64,
                    log: id,
                    log_state: state,
                };
                lemma_unique_place(segments, index, id, state);
                assert(record_at(segments, pointer) =~= rest.subrange(0, size));
                lemma_decode_encoded(cmd, Seq::empty());
                assert(encode_command(cmd) + Seq::<u8>::empty() =~= encode_command(cmd));
                assert(points_at(segments, key, pointer));
                let next = recover_put(so_far, key, pointer);
                assert forall|other: Seq<char>| #[trigger]
                    next.key_dir.contains_key(other) implies points_at(
                    segments,
                    other,
                    next.key_dir[other],
                ) by {
                    if other != key {
                        assert(so_far.key_dir.contains_key(other));
                    }
                }
                lemma_recovered_segment_points(segments, index, pos + size, next);
                assert(recover_segment(data, pos, id, state, so_far) == recover_segment(
                    data,
                    pos + size,
                    id,
                    state,
                    next,
                ));
            },
            Some(CommandView::Rm { key }) => {
                let size = command_size(CommandView::Rm { key });
                lemma_encode_decoded(rest);
                let next = recover_rm(so_far, key);
                assert forall|other: Seq<char>| #[trigger]
                    next.key_dir.contains_key(other) implies points_at(
                    segments,
                    other,
                    next.key_dir[other],
                ) by {
                    assert(so_far.key_dir.contains_key(other));
                }
                lemma_recovered_segment_points(segments, index, pos + size, next);
                assert(recover_segment(data, pos, id, state, so_far) == recover_segment(
                    data,
                    pos + size,
                    id,
                    state,
                    next,
                ));
            },
            _ => {},
        }
    }
}

/// Every pointer that recovery gathers from the first `count` segments
/// refers to a `Put` record of its key.
pub proof fn lemma_recovered_points(segments: Seq<SegmentView>, count: int)
    requires
        in_replay_order(segments),
        sizes_fit(segments),
        0 <= count <= segments.len(),
    ensures
        forall|key: Seq<char>| #[trigger]
            recover(segments.subrange(0, count)).key_dir.contains_key(key) ==> points_at(
                segments,
                key,
                recover(segments.subrange(0, count)).key_dir[key],
            ),
    decreases count,
{
    let front = segments.subrange(0, count);
    if count > 0 {
        lemma_recovered_points(segments, count - 1);
        assert(front.drop_last() =~= segments.subrange(0, count - 1));
        assert(front.last() == segments[count - 1]);
        lemma_recovered_segment_points(
            segments,
            count - 1,
            0,
            recover(segments.subrange(0, count - 1)),
        );
    }
}

/// The pointers of a key directory keep referring to their records, with
/// the values they had, while the segments only grow.
pub proof fn lemma_pointers_kept(
    before: Seq<SegmentView>,
    after: Seq<SegmentView>,
    pointers: Map<Seq<char>, LogPointer>,
)
    requires
        grown_from(before, after),
        forall|key: Seq<char>| #[trigger]
            pointers.contains_key(key) ==> points_at(before, key, pointers[key]),
    ensures
        forall|key: Seq<char>| #[trigger]
            pointers.contains_key(key) ==> points_at(after, key, pointers[key]) && value_at(
                after,
                pointers[key],
            ) == value_at(before, pointers[key]),
{
    assert forall|key: Seq<char>| #[trigger] pointers.contains_key(key) implies points_at(
        after,
        key,
        pointers[key],
    ) && value_at(after, pointers[key]) == value_at(before, pointers[key]) by {
        let pointer = pointers[key];
        assert(has_segment(before, pointer.log, pointer.log_state));
        lemma_pointer_kept(before, after, key, pointer);
    }
}

/// The number of bytes that the segments take together.
pub open spec fn total_size(segments: Seq<SegmentView>) -> int
    decreases segments.len(),
{
    if segments.len() == 0 {
        0
    } else {
        total_size(segments.drop_last()) + segments.last().data.len()
    }
}

/// Adds the size of the record that `key` points at to a sum.
pub open spec fn add_record_size(pointers: Map<Seq<char>, LogPointer>) -> spec_fn(
    int,
    Seq<char>,
) -> int {
    |sum: int, key: Seq<char>| sum + pointers[key].size
}

/// The number of bytes that the live records take together: the sum of
/// the record sizes over the keys of the key directory.
pub open spec fn live_size(pointers: Map<Seq<char>, LogPointer>) -> int {
    pointers.dom().fold(0int, add_record_size(pointers))
}

/// The sum of the record sizes of the first `count` keys of a list.
pub open spec fn sizes_sum(
    keys: Seq<Seq<char>>,
    pointers: Map<Seq<char>, LogPointer>,
    count: int,
) -> int
    decreases count,
{
    if count <= 0 {
        0
    } else {
        sizes_sum(keys, pointers, count - 1) + pointers[keys[count - 1]].size
    }
}

/// The size of a directory grows by what one of its segments grows.
pub proof fn lemma_total_size_update(segments: Seq<SegmentView>, index: int, longer: SegmentView)
    requires
        0 <= index < segments.len(),
    ensures
        total_size(segments.update(index, longer)) == total_size(segments)
            - segments[index].data.len() + longer.data.len(),
    decreases segments.len(),
{
    let changed = segments.update(index, longer);
    if index == segments.len() - 1 {
        assert(changed.drop_last() =~= segments.drop_last());
    } else {
        lemma_total_size_update(segments.drop_last(), index, longer);
        assert(changed.drop_last() =~= segments.drop_last().update(index, longer));
        assert(changed.last() == segments.last());
    }
}

/// Sums over a list of keys are equal where the sizes are equal.
pub proof fn lemma_sizes_sum_same(
    keys: Seq<Seq<char>>,
    pointers: Map<Seq<char>, LogPointer>,
    others: Map<Seq<char>, LogPointer>,
    count: int,
)
    requires
        0 <= count <= keys.len(),
        forall|a: int| 0 <= a < count ==> pointers[#[trigger] keys[a]].size == others[keys[a]].size,
    ensures
        sizes_sum(keys, pointers, count) == sizes_sum(keys, others, count),
    decreases count,
{
    if count > 0 {
        lemma_sizes_sum_same(keys, pointers, others, count - 1);
        assert(pointers[keys[count - 1]].size == others[keys[count - 1]].size);
    }
}

/// The sum of the record sizes over the first `count` keys of a list
/// without repetitions is the sum over the set of those keys.
pub proof fn lemma_sizes_sum_of_set(
    keys: Seq<Seq<char>>,
    pointers: Map<Seq<char>, LogPointer>,
    count: int,
)
    requires
        0 <= count <= keys.len(),
        forall|a: int, b: int| 0 <= a < b < keys.len() ==> #[trigger] keys[a] != #[trigger] keys[b],
    ensures
        keys.subrange(0, count).to_set().finite(),
        sizes_sum(keys, pointers, count) == keys.subrange(0, count).to_set().fold(
            0int,
            add_record_size(pointers),
        ),
    decreases count,
{
    let f = add_record_size(pointers);
    assert(vstd::set::fold::is_fun_commutative(f));
    vstd::seq_lib::seq_to_set_is_finite(keys.subrange(0, count));
    if count == 0 {
        assert(keys.subrange(0, 0).to_set() =~= Set::<Seq<char>>::empty());
        vstd::set::fold::lemma_fold_empty(0int, f);
    } else {
        lemma_sizes_sum_of_set(keys, pointers, count - 1);
        let front = keys.subrange(0, count - 1);
        let whole = keys.subrange(0, count);
        let added = keys[count - 1];
        assert(!front.to_set().contains(added)) by {
            if front.contains(added) {
                let at = choose|at: int| 0 <= at < front.len() && front[at] == added;
                assert(keys[at] == keys[count - 1]);
            }
        }
        assert(whole.to_set() =~= front.to_set().insert(added)) by {
            assert forall|key: Seq<char>| whole.to_set().contains(key) == front.to_set().insert(
                added,
            ).contains(key) by {
                if whole.contains(key) {
                    let at = choose|at: int| 0 <= at < whole.len() && whole[at] == key;
                    if at < count - 1 {
                        assert(front[at] == key);
                    }
                }
                if front.contains(key) {
                    let at = choose|at: int| 0 <= at < front.len() && front[at] == key;
                    assert(whole[at] == key);
                }
                assert(whole[count - 1] == added);
            }
        }
        vstd::set::fold::lemma_fold_insert(front.to_set(), 0int, f, added);
    }
}

/// The sum of the record sizes over a list that holds every key of a key
/// directory once is the size of the live records.
pub proof fn lemma_sizes_sum_is_live_size(
    keys: Seq<Seq<char>>,
    pointers: Map<Seq<char>, LogPointer>,
)
    requires
        forall|a: int, b: int| 0 <= a < b < keys.len() ==> #[trigger] keys[a] != #[trigger] keys[b],
        forall|a: int| 0 <= a < keys.len() ==> pointers.contains_key(#[trigger] keys[a]),
        forall|key: Seq<char>| #[trigger]
            pointers.contains_key(key) ==> exists|a: int|
                0 <= a < keys.len() && #[trigger] keys[a] == key,
    ensures
        sizes_sum(keys, pointers, keys.len() as int) == live_size(pointers),
{
    lemma_sizes_sum_of_set(keys, pointers, keys.len() as int);
    assert(keys.subrange(0, keys.len() as int) =~= keys);
    assert(keys.to_set() =~= pointers.dom()) by {
        assert forall|key: Seq<char>| keys.to_set().contains(key) == pointers.dom().contains(
            key,
        ) by {
            if keys.contains(key) {
                let at = choose|at: int| 0 <= at < keys.len() && keys[at] == key;
                assert(pointers.contains_key(keys[at]));
            }
            if pointers.contains_key(key) {
                let at = choose|at: int| 0 <= at < keys.len() && #[trigger] keys[at] == key;
                assert(keys.contains(key));
            }
        }
    }
}

/// The segments that the pointers of a key directory refer to, as the
/// reader files them.
pub open spec fn live_handles(pointers: Map<Seq<char>, LogPointer>) -> Set<(u64, char)> {
    Set::new(
        |handle: (u64, char)|
            exists|key: Seq<char>| #[trigger]
                pointers.contains_key(key) && handle == handle_key(
                    pointers[key].log,
                    pointers[key].log_state,
                ),
    )
}

} // verus!
