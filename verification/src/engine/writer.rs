//! The log writer: it owns the place at which the next record is appended.

use crate::common::Command;
use crate::engine::directory::{
    data_of,
    has_segment,
    index_of,
    place_of,
    Directory,
    DiskChangeView,
    SegmentView,
};
use crate::engine::record::{command_fits, command_size, encode, encode_command};
use crate::engine::segment::LogState;
use crate::error::KvsError;
use vstd::prelude::*;

verus! {

/// Appends to one segment and keeps track of where that segment ends.
pub struct LogWriter {
    /// Id of the segment written to.
    pub log: u64,
    /// State of the segment written to.
    pub log_state: LogState,
    /// Offset at which the next append starts.
    pub pos: u64,
}

impl LogWriter {
    /// Whether the writer stands at the end of its segment in `folder`.
    pub open spec fn attached(&self, segments: Seq<SegmentView>) -> bool {
        &&& has_segment(segments, self.log, self.log_state)
        &&& self.pos == data_of(segments, self.log, self.log_state).len()
    }

    /// Opens the segment `log` in state `log_state` for appending, creating
    /// it empty where it does not exist yet, and stands at its end.
    pub fn new(folder: &mut Directory, log: u64, log_state: LogState) -> (writer: LogWriter)
        requires
            old(folder).wf(),
        ensures
            final(folder).wf(),
            writer.log == log,
            writer.log_state == log_state,
            writer.attached(final(folder)@),
            has_segment(old(folder)@, log, log_state) ==> final(folder)@ == old(folder)@,
            !has_segment(old(folder)@, log, log_state) ==> writer.pos == 0 && final(folder)@
                == old(folder)@.insert(
                place_of(old(folder)@, log, log_state),
                SegmentView { id: log, state: log_state, data: Seq::empty() },
            ),
            forall|other: u64, other_state: LogState|
                has_segment(final(folder)@, other, other_state) == (has_segment(
                    old(folder)@,
                    other,
                    other_state,
                ) || (other == log && other_state == log_state)),
            forall|other: u64, other_state: LogState|
                has_segment(old(folder)@, other, other_state) ==> #[trigger] data_of(
                    final(folder)@,
                    other,
                    other_state,
                ) == data_of(old(folder)@, other, other_state),
            final(folder).persisted() == old(folder).persisted(),
            final(folder).pending() == if has_segment(old(folder)@, log, log_state) {
                old(folder).pending()
            } else {
                old(folder).pending().push(DiskChangeView::Create { id: log, state: log_state })
            },
    {
        folder.create(log, log_state);
        let pos = match folder.size_of(log, log_state) {
            Some(size) => size,
            None => 0,
        };
        LogWriter { log, log_state, pos }
    }

    /// Leaves the current segment and goes on at the end of the segment
    /// `log` in state `log_state`, which is created empty where it does
    /// not exist yet.
    pub fn roll(&mut self, folder: &mut Directory, log: u64, log_state: LogState)
        requires
            old(folder).wf(),
        ensures
            final(folder).wf(),
            final(self).log == log,
            final(self).log_state == log_state,
            final(self).attached(final(folder)@),
            has_segment(old(folder)@, log, log_state) ==> final(folder)@ == old(folder)@,
            !has_segment(old(folder)@, log, log_state) ==> final(self).pos == 0 && final(folder)@
                == old(folder)@.insert(
                place_of(old(folder)@, log, log_state),
                SegmentView { id: log, state: log_state, data: Seq::empty() },
            ),
            forall|other: u64, other_state: LogState|
                has_segment(final(folder)@, other, other_state) == (has_segment(
                    old(folder)@,
                    other,
                    other_state,
                ) || (other == log && other_state == log_state)),
            forall|other: u64, other_state: LogState|
                has_segment(old(folder)@, other, other_state) ==> #[trigger] data_of(
                    final(folder)@,
                    other,
                    other_state,
                ) == data_of(old(folder)@, other, other_state),
            final(folder).persisted() == old(folder).persisted(),
            final(folder).pending() == if has_segment(old(folder)@, log, log_state) {
                old(folder).pending()
            } else {
                old(folder).pending().push(DiskChangeView::Create { id: log, state: log_state })
            },
    {
        *self = LogWriter::new(folder, log, log_state);
    }

    /// Appends `buf` to the writer's segment and returns the number of
    /// bytes written. Fails with `Io`, changing nothing, where the segment
    /// is not in `folder`.
    pub fn write_buf(&mut self, folder: &mut Directory, buf: &[u8]) -> (written: Result<
        u64,
        KvsError,
    >)
        requires
            old(folder).wf(),
        ensures
            final(folder).wf(),
            final(self).log == old(self).log,
            final(self).log_state == old(self).log_state,
            final(folder)@.len() == old(folder)@.len(),
            match written {
                Ok(size) => {
                    &&& has_segment(old(folder)@, old(self).log, old(self).log_state)
                    &&& size == buf@.len()
                    &&& data_of(final(folder)@, old(self).log, old(self).log_state) == data_of(
                        old(folder)@,
                        old(self).log,
                        old(self).log_state,
                    ) + buf@
                    &&& final(folder)@ == old(folder)@.update(
                        index_of(old(folder)@, old(self).log, old(self).log_state),
                        SegmentView {
                            id: old(self).log,
                            state: old(self).log_state,
                            data: data_of(old(folder)@, old(self).log, old(self).log_state) + buf@,
                        },
                    )
                    &&& final(self).attached(final(folder)@)
                },
                Err(error) => {
                    &&& error == KvsError::Io
                    &&& !has_segment(old(folder)@, old(self).log, old(self).log_state)
                    &&& final(folder)@ == old(folder)@
                    &&& final(self).pos == old(self).pos
                },
            },
            forall|other: u64, other_state: LogState|
                has_segment(final(folder)@, other, other_state) == has_segment(
                    old(folder)@,
                    other,
                    other_state,
                ),
            forall|other: u64, other_state: LogState|
                has_segment(old(folder)@, other, other_state) && !(other == old(self).log
                    && other_state == old(self).log_state) ==> #[trigger] data_of(
                    final(folder)@,
                    other,
                    other_state,
                ) == data_of(old(folder)@, other, other_state),
            final(folder).persisted() == old(folder).persisted(),
            final(folder).pending() == if written is Ok {
                old(folder).pending().push(
                    DiskChangeView::Append {
                        id: old(self).log,
                        state: old(self).log_state,
                        bytes: buf@,
                    },
                )
            } else {
                old(folder).pending()
            },
    {
        folder.append(self.log, self.log_state, buf)?;
        match folder.size_of(self.log, self.log_state) {
            Some(end) => {
                self.pos = end;
            },
            None => {},
        }
        Ok(buf.len() as u64)
    }

    /// Encodes `cmd`, appends the record to the writer's segment and
    /// returns its size in bytes. Fails with `Io`, changing nothing, where
    /// the segment is not in `folder`.
    pub fn write_cmd(&mut self, folder: &mut Directory, cmd: &Command) -> (written: Result<
        u64,
        KvsError,
    >)
        requires
            old(folder).wf(),
        ensures
            final(folder).wf(),
            command_fits(cmd@),
            final(self).log == old(self).log,
            final(self).log_state == old(self).log_state,
            final(folder)@.len() == old(folder)@.len(),
            match written {
                Ok(size) => {
                    &&& has_segment(old(folder)@, old(self).log, old(self).log_state)
                    &&& size == encode_command(cmd@).len()
                    &&& size == command_size(cmd@)
                    &&& data_of(final(folder)@, old(self).log, old(self).log_state) == data_of(
                        old(folder)@,
                        old(self).log,
                        old(self).log_state,
                    ) + encode_command(cmd@)
                    &&& final(folder)@ == old(folder)@.update(
                        index_of(old(folder)@, old(self).log, old(self).log_state),
                        SegmentView {
                            id: old(self).log,
                            state: old(self).log_state,
                            data: data_of(old(folder)@, old(self).log, old(self).log_state)
                                + encode_command(cmd@),
                        },
                    )
                    &&& final(self).attached(final(folder)@)
                },
                Err(error) => {
                    &&& error == KvsError::Io
                    &&& !has_segment(old(folder)@, old(self).log, old(self).log_state)
                    &&& final(folder)@ == old(folder)@
                    &&& final(self).pos == old(self).pos
                },
            },
            forall|other: u64, other_state: LogState|
                has_segment(final(folder)@, other, other_state) == has_segment(
                    old(folder)@,
                    other,
                    other_state,
                ),
            forall|other: u64, other_state: LogState|
                has_segment(old(folder)@, other, other_state) && !(other == old(self).log
                    && other_state == old(self).log_state) ==> #[trigger] data_of(
                    final(folder)@,
                    other,
                    other_state,
                ) == data_of(old(folder)@, other, other_state),
            final(folder).persisted() == old(folder).persisted(),
            final(folder).pending() == if written is Ok {
                old(folder).pending().push(
                    DiskChangeView::Append {
                        id: old(self).log,
                        state: old(self).log_state,
                        bytes: encode_command(cmd@),
                    },
                )
            } else {
                old(folder).pending()
            },
    {
        match encode(cmd) {
            Ok(bytes) => self.write_buf(folder, bytes.as_slice()),
            Err(error) => Err(error),
        }
    }
}

} // verus!
