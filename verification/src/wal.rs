//! The segmented write-ahead log: what it knows of its segments, and how each
//! operation changes that for every outcome of the file work it asks for.
use crate::ends;
use crate::error::{FormatIssue, IoError, WalError};
use crate::frame;
use crate::frame::write_frame;
use crate::recovery;
use crate::recovery::{recover_checkpoint, recover_next_seq, scan_active_segment, validate_magics};
use crate::record::{ComponentSchema, WalSchema};
use crate::segment;
use crate::segment::{magic_bytes, scan_max_view, SegmentImage};
use crate::views;
use crate::views::Views;
use crate::wal_laws;
use vstd::prelude::*;

verus! {

/// Configuration for a segmented log.
#[derive(Clone, Copy, Debug, PartialEq, Eq)]
pub struct WalConfig {
    /// Maximum bytes per segment file before rolling to a new segment.
    /// Default: 64 MiB.
    pub max_segment_bytes: usize,
    /// Maximum bytes of mutation data between checkpoint markers.
    /// `None` disables checkpoint enforcement (default).
    pub max_bytes_between_checkpoints: Option<usize>,
}

impl Default for WalConfig {
    fn default() -> (config: WalConfig)
        ensures
            config.max_segment_bytes == 64 * 1024 * 1024,
            config.max_bytes_between_checkpoints is None,
    {
        WalConfig { max_segment_bytes: 64 * 1024 * 1024, max_bytes_between_checkpoints: None }
    }
}

/// Read-only snapshot of log statistics.
#[derive(Clone, Copy, Debug, PartialEq, Eq)]
pub struct WalStats {
    pub next_seq: u64,
    pub segment_count: usize,
    pub oldest_seq: Option<u64>,
    pub bytes_since_checkpoint: u64,
    pub last_checkpoint_seq: Option<u64>,
    pub checkpoint_needed: bool,
    /// Failed segment-rollover attempts since the log was created or opened. A
    /// rising value means appends go to an over-budget segment: the data is
    /// safe, but the segment grows until a roll succeeds.
    pub roll_failures: u64,
}

/// Outcome of removing an uncommitted rollover and synchronizing its
/// directory.
#[derive(Debug, PartialEq, Eq)]
pub struct CleanupIo {
    pub removed: Result<(), IoError>,
    pub synced: Result<(), IoError>,
}

/// Outcome of the file work of a segment rollover.
#[derive(Debug, PartialEq, Eq)]
pub struct RollIo {
    pub cleanup: CleanupIo,
    /// Creating the new segment file.
    pub opened: Result<(), IoError>,
    /// Writing its header and synchronizing file and directory: the number of
    /// header bytes written.
    pub prepared: Result<u64, WalError>,
    /// Removing the new file again after a failure.
    pub rollback: CleanupIo,
}

/// Outcome of the file work of an append.
#[derive(Debug, PartialEq, Eq)]
pub struct AppendIo {
    pub cleanup: CleanupIo,
    pub write: Result<(), IoError>,
    pub sync: Result<(), IoError>,
    pub roll: RollIo,
}

/// A log as mathematical values.
#[verifier::ext_equal]
pub struct WalView {
    pub active_start_seq: u64,
    pub active_bytes: u64,
    pub next_seq: u64,
    pub durable_next_seq: u64,
    pub durable_ends: Seq<(u64, u64)>,
    pub config: WalConfig,
    pub schema: Seq<ComponentSchema>,
    pub last_checkpoint_seq: Option<u64>,
    pub bytes_since_checkpoint: u64,
    pub roll_failures: u64,
    pub pending_roll: Option<u64>,
    pub view: u64,
    pub pinned: bool,
}

/// A segment header: the magic, then the schema preamble under `view`.
pub open spec fn segment_header(payload: Seq<u8>, view: u64) -> Seq<u8> {
    segment::segment_magic() + frame::frame_bytes(payload, view)
}

impl WalView {
    /// Published segments ascend, the active one is among them, and nothing is
    /// published that was not appended.
    pub open spec fn wf(self) -> bool {
        &&& ends::ascending(self.durable_ends)
        &&& ends::has_start(self.durable_ends, self.active_start_seq)
        &&& self.durable_next_seq <= self.next_seq
    }

    /// The log with its active segment published up to what was written.
    pub open spec fn published(self) -> WalView {
        WalView {
            durable_ends: ends::with_end(
                self.durable_ends,
                self.active_start_seq,
                self.active_bytes,
            ),
            durable_next_seq: self.next_seq,
            ..self
        }
    }

    pub open spec fn checkpoint_needed(self) -> bool {
        match self.config.max_bytes_between_checkpoints {
            Some(max) => self.bytes_since_checkpoint > max,
            None => false,
        }
    }

    pub open spec fn stats(self, starts: Seq<u64>) -> WalStats {
        WalStats {
            next_seq: self.next_seq,
            segment_count: starts.len() as usize,
            oldest_seq: if starts.len() > 0 {
                Some(starts[0])
            } else {
                None
            },
            bytes_since_checkpoint: self.bytes_since_checkpoint,
            last_checkpoint_seq: self.last_checkpoint_seq,
            checkpoint_needed: self.checkpoint_needed(),
            roll_failures: self.roll_failures,
        }
    }

    /// An uncommitted rollover stays pending until its removal is durable. A
    /// file that is already gone counts as removed.
    pub open spec fn cleaned(self, io: CleanupIo) -> (WalView, Result<(), WalError>) {
        if self.pending_roll is None {
            (self, Ok(()))
        } else {
            match io.removed {
                Err(IoError::UnexpectedEof) => (self, Err(WalError::Io(IoError::UnexpectedEof))),
                Err(IoError::Host(m)) => (self, Err(WalError::Io(IoError::Host(m)))),
                _ => match io.synced {
                    Err(e) => (self, Err(WalError::Io(e))),
                    Ok(_) => (WalView { pending_roll: None, ..self }, Ok(())),
                },
            }
        }
    }

    /// The new segment becomes active only once it is prepared; otherwise the
    /// current one stays active and the new file is removed or left pending.
    pub open spec fn rolled(self, io: RollIo) -> (WalView, Result<(), WalError>) {
        let (w, cleanup) = self.cleaned(io.cleanup);
        match cleanup {
            Err(e) => (w, Err(e)),
            Ok(_) => match io.opened {
                Err(e) => (w, Err(WalError::Io(e))),
                Ok(_) => match io.prepared {
                    Ok(bytes) => (
                        WalView {
                            pending_roll: None,
                            active_start_seq: w.next_seq,
                            active_bytes: bytes,
                            ..w
                        }.published(),
                        Ok(()),
                    ),
                    Err(error) => {
                        let (back, undone) = WalView {
                            pending_roll: Some(w.next_seq),
                            ..w
                        }.cleaned(io.rollback);
                        match undone {
                            Err(e) => (back, Err(e)),
                            Ok(_) => (back, Err(error)),
                        }
                    },
                },
            },
        }
    }

    /// The counters advance once the frame is written, before it is known to be
    /// durable: a sequence number is never issued twice.
    pub open spec fn written(self, frame_bytes: int) -> WalView {
        WalView {
            active_bytes: (self.active_bytes + frame_bytes) as u64,
            bytes_since_checkpoint: (self.bytes_since_checkpoint + frame_bytes) as u64,
            next_seq: (self.next_seq + 1) as u64,
            ..self
        }
    }

    /// Rolls over when the active segment exceeds its budget. Failure costs
    /// nothing but a count.
    pub open spec fn rolled_if_due(self, io: RollIo) -> WalView {
        if self.active_bytes > self.config.max_segment_bytes {
            let (w, r) = self.rolled(io);
            match r {
                Ok(_) => w,
                Err(_) => WalView { roll_failures: (w.roll_failures + 1) as u64, ..w },
            }
        } else {
            self
        }
    }

    /// A log as it is created, around an encoded schema entry of `len` bytes.
    pub open spec fn created(schema: Seq<ComponentSchema>, config: WalConfig, len: int) -> WalView {
        WalView {
            active_start_seq: 0,
            active_bytes: (20 + len) as u64,
            next_seq: 0,
            durable_next_seq: 0,
            durable_ends: seq![(0u64, (20 + len) as u64)],
            config,
            schema,
            last_checkpoint_seq: None,
            bytes_since_checkpoint: 0,
            roll_failures: 0,
            pending_roll: None,
            view: 0,
            pinned: false,
        }
    }

    /// The frame that an encoded entry is written as.
    pub open spec fn framed(self, payload: Seq<u8>) -> Seq<u8> {
        frame::frame_bytes(payload, self.view)
    }

    /// The file that a segment starts as, around the encoded schema entry.
    pub open spec fn headed(self, payload: Seq<u8>) -> Seq<u8> {
        segment_header(payload, self.view)
    }

    /// Whether an entry of `len` bytes leaves the active segment over its
    /// budget.
    pub open spec fn overflows(self, len: int) -> bool {
        self.active_bytes + 16 + len > self.config.max_segment_bytes
    }

    /// Whether writing an entry gets as far as the active file, and succeeds
    /// there.
    pub open spec fn writes(self, payload: Result<Seq<u8>, WalError>, io: AppendIo) -> bool {
        &&& self.cleaned(io.cleanup).1 is Ok
        &&& payload matches Ok(bytes) && bytes.len() <= u32::MAX
        &&& io.write is Ok
    }

    /// The counters that an append moves have room for it.
    pub open spec fn has_room(self, payload: Result<Seq<u8>, WalError>, io: AppendIo) -> bool {
        self.writes(payload, io) ==> {
            let frame_bytes = (16 + payload->Ok_0.len()) as int;
            let full = self.cleaned(io.cleanup).0.written(frame_bytes).published();
            &&& self.next_seq < u64::MAX
            &&& self.active_bytes + frame_bytes <= u64::MAX
            &&& self.bytes_since_checkpoint + frame_bytes <= u64::MAX
            &&& io.sync is Ok && full.active_bytes > full.config.max_segment_bytes && full.rolled(
                io.roll,
            ).1 is Err ==> self.roll_failures < u64::MAX
        }
    }

    /// What an append comes to. `payload` is the encoded record, or why there
    /// is none.
    pub open spec fn appended(self, payload: Result<Seq<u8>, WalError>, io: AppendIo) -> (
        WalView,
        Result<u64, WalError>,
    ) {
        let (w, cleanup) = self.cleaned(io.cleanup);
        match cleanup {
            Err(e) => (w, Err(e)),
            Ok(_) => match payload {
                Err(e) => (w, Err(e)),
                Ok(bytes) => if bytes.len() > u32::MAX {
                    (
                        w,
                        Err(
                            WalError::Format(
                                FormatIssue::EntryTooLarge { len: bytes.len() as u64 },
                            ),
                        ),
                    )
                } else {
                    match io.write {
                        Err(e) => (w, Err(WalError::Io(e))),
                        Ok(_) => {
                            let written = w.written((16 + bytes.len()) as int);
                            match io.sync {
                                Err(e) => (written, Err(WalError::Io(e))),
                                Ok(_) => (
                                    written.published().rolled_if_due(io.roll),
                                    Ok(self.next_seq),
                                ),
                            }
                        },
                    }
                },
            },
        }
    }

    /// What acknowledging a flush comes to.
    pub open spec fn acknowledged(
        self,
        seq: u64,
        payload: Result<Seq<u8>, WalError>,
        io: AppendIo,
    ) -> (WalView, Result<(), WalError>) {
        let (w, cleanup) = self.cleaned(io.cleanup);
        match cleanup {
            Err(e) => (w, Err(e)),
            Ok(_) => match payload {
                Err(e) => (w, Err(e)),
                Ok(bytes) => if bytes.len() > u32::MAX {
                    (
                        w,
                        Err(
                            WalError::Format(
                                FormatIssue::EntryTooLarge { len: bytes.len() as u64 },
                            ),
                        ),
                    )
                } else {
                    match io.write {
                        Err(e) => (w, Err(WalError::Io(e))),
                        Ok(_) => {
                            let written = WalView {
                                active_bytes: (w.active_bytes + 16 + bytes.len()) as u64,
                                last_checkpoint_seq: Some(seq),
                                bytes_since_checkpoint: 0,
                                ..w
                            };
                            match io.sync {
                                Err(e) => (written, Err(WalError::Io(e))),
                                Ok(_) => (written.published(), Ok(())),
                            }
                        },
                    }
                },
            },
        }
    }

    /// Deletes the segments `starts[i..]` whose successor starts at or before
    /// `seq`, as far as removal succeeds.
    pub open spec fn deleted_from(
        self,
        seq: u64,
        starts: Seq<u64>,
        removed: Seq<Result<(), IoError>>,
        i: int,
    ) -> (WalView, Result<usize, WalError>)
        decreases starts.len() - i,
    {
        if i < 0 || i + 1 >= starts.len() || starts[i + 1] > seq {
            (self, Ok(i as usize))
        } else {
            match removed[i] {
                Err(e) => (self, Err(WalError::Io(e))),
                Ok(_) => WalView {
                    durable_ends: ends::without_start(self.durable_ends, starts[i]),
                    ..self
                }.deleted_from(seq, starts, removed, i + 1),
            }
        }
    }

    pub open spec fn deleted(
        self,
        seq: u64,
        cleanup: CleanupIo,
        starts: Seq<u64>,
        removed: Seq<Result<(), IoError>>,
    ) -> (WalView, Result<usize, WalError>) {
        let (w, r) = self.cleaned(cleanup);
        match r {
            Err(e) => (w, Err(e)),
            Ok(_) => if w.pinned {
                (w, Ok(0))
            } else {
                w.deleted_from(seq, starts, removed, 0)
            },
        }
    }

    /// How many of the segments `starts` deletion before `seq` would remove.
    pub open spec fn deletable(self, starts: Seq<u64>, seq: u64) -> int {
        if self.pinned {
            0
        } else {
            deletable_count(starts, seq, 0)
        }
    }
}

/// Segmented append-only write-ahead log. Each segment is a stream of entry
/// frames with a schema preamble. Segments roll over when they exceed
/// `WalConfig::max_segment_bytes`.
pub struct Wal {
    active_start_seq: u64,
    active_bytes: u64,
    next_seq: u64,
    // Published together only after synchronization. Control frames also need
    // byte bounds.
    durable_next_seq: u64,
    durable_ends: Vec<(u64, u64)>,
    config: WalConfig,
    schema: WalSchema,
    last_checkpoint_seq: Option<u64>,
    bytes_since_checkpoint: u64,
    roll_failures: u64,
    // Start of an uncommitted rollover, which must be durably removed before
    // later writes.
    pending_roll: Option<u64>,
    /// View counter for frame stamping.
    pub views: Views,
    // Followers need the fence context of the whole prefix: nothing is deleted.
    pinned: bool,
}

impl View for Wal {
    type V = WalView;

    closed spec fn view(&self) -> WalView {
        WalView {
            active_start_seq: self.active_start_seq,
            active_bytes: self.active_bytes,
            next_seq: self.next_seq,
            durable_next_seq: self.durable_next_seq,
            durable_ends: self.durable_ends@,
            config: self.config,
            schema: self.schema@,
            last_checkpoint_seq: self.last_checkpoint_seq,
            bytes_since_checkpoint: self.bytes_since_checkpoint,
            roll_failures: self.roll_failures,
            pending_roll: self.pending_roll,
            view: self.views@,
            pinned: self.pinned,
        }
    }
}

/// Builds a segment header around an encoded schema.
pub fn build_segment_header(payload: &[u8], view: u64) -> (r: Result<Vec<u8>, WalError>)
    ensures
        payload@.len() <= u32::MAX ==> (r matches Ok(bytes) && bytes@ == segment_header(
            payload@,
            view,
        )),
        payload@.len() > u32::MAX ==> r == Err::<Vec<u8>, WalError>(
            WalError::Format(FormatIssue::EntryTooLarge { len: payload@.len() as u64 }),
        ),
{
    match write_frame(payload, view) {
        Err(e) => Err(e),
        Ok(bytes) => {
            let mut header = magic_bytes();
            frame::append_slice(&mut header, bytes.as_slice());
            Ok(header)
        },
    }
}

/// What `Wal::open` asks of the host, with the log as it is afterwards.
pub struct Recovery {
    pub wal: Wal,
    /// Length to cut the active segment file to.
    pub truncate_to: u64,
    /// Header to write to the active segment file once it is emptied, when
    /// recovery left no frame in it.
    pub header: Option<Vec<u8>>,
}

impl Wal {
    pub open spec fn wf(&self) -> bool {
        self@.wf()
    }

    /// A new log over an empty directory. The bytes returned are the first
    /// segment's file, to be written and synchronized before the log is used;
    /// `payload` is the encoded schema entry.
    pub fn create(schema: WalSchema, config: WalConfig, payload: &[u8]) -> (r: Result<
        (Wal, Vec<u8>),
        WalError,
    >)
        requires
            payload@.len() + 20 <= u64::MAX,
        ensures
            payload@.len() > u32::MAX ==> r == Err::<(Wal, Vec<u8>), WalError>(
                WalError::Format(FormatIssue::EntryTooLarge { len: payload@.len() as u64 }),
            ),
            payload@.len() <= u32::MAX ==> (r matches Ok((wal, bytes)) && {
                &&& bytes@ == segment_header(payload@, 0)
                &&& wal.wf()
                &&& wal@ == (WalView {
                    active_start_seq: 0,
                    active_bytes: (20 + payload@.len()) as u64,
                    next_seq: 0,
                    durable_next_seq: 0,
                    durable_ends: seq![(0u64, (20 + payload@.len()) as u64)],
                    config,
                    schema: schema@,
                    last_checkpoint_seq: None,
                    bytes_since_checkpoint: 0,
                    roll_failures: 0,
                    pending_roll: None,
                    view: 0,
                    pinned: false,
                })
                &&& wal@ == WalView::created(schema@, config, payload@.len() as int)
                &&& bytes@ == wal@.headed(payload@)
            }),
    {
        let views = Views::new();
        match build_segment_header(payload, views.current()) {
            Err(e) => Err(e),
            Ok(bytes) => {
                proof {
                    crate::frame_laws::law_header_reads_back(payload@, 0);
                }
                let active_bytes: u64 = 20 + payload.len() as u64;
                let mut durable_ends: Vec<(u64, u64)> = Vec::new();
                durable_ends.push((0, active_bytes));
                let wal = Wal {
                    active_start_seq: 0,
                    active_bytes,
                    next_seq: 0,
                    durable_next_seq: 0,
                    durable_ends,
                    config,
                    schema,
                    last_checkpoint_seq: None,
                    bytes_since_checkpoint: 0,
                    roll_failures: 0,
                    pending_roll: None,
                    views,
                    pinned: false,
                };
                assert(wal@.durable_ends =~= seq![(0u64, active_bytes)]);
                assert(wal@.durable_ends[0].0 == 0);
                Ok((wal, bytes))
            },
        }
    }

    /// Current sequence number (next append will use this).
    pub fn next_seq(&self) -> (seq: u64)
        ensures
            seq == self@.next_seq,
    {
        self.next_seq
    }

    /// One past the last sequence number known to be durable.
    pub fn durable_seq(&self) -> (seq: u64)
        ensures
            seq == self@.durable_next_seq,
    {
        self.durable_next_seq
    }

    pub(crate) fn durable_ends(&self) -> (ends: &Vec<(u64, u64)>)
        ensures
            ends@ == self@.durable_ends,
    {
        &self.durable_ends
    }

    /// First sequence number of the segment that appends go to.
    pub fn active_start_seq(&self) -> (seq: u64)
        ensures
            seq == self@.active_start_seq,
    {
        self.active_start_seq
    }

    /// Start of an uncommitted rollover whose file is still to be removed.
    pub fn pending_roll(&self) -> (start: Option<u64>)
        ensures
            start == self@.pending_roll,
    {
        self.pending_roll
    }

    /// The view that the next frame is stamped with.
    pub fn current_view(&self) -> (view: u64)
        ensures
            view == self@.view,
    {
        self.views.current()
    }

    /// Advances the log to the next view and returns it. Frames written from
    /// then on carry it.
    pub fn bump_view(&mut self) -> (view: u64)
        requires
            old(self)@.view < u64::MAX,
        ensures
            view == old(self)@.view + 1,
            final(self)@ == (WalView { view, ..old(self)@ }),
    {
        self.views.bump()
    }

    /// The schema preamble of new segments.
    pub fn schema(&self) -> (schema: &WalSchema)
        ensures
            schema@ == self@.schema,
    {
        &self.schema
    }

    /// Returns `true` when the log has accumulated more bytes since the last
    /// checkpoint than `max_bytes_between_checkpoints` allows.
    pub fn checkpoint_needed(&self) -> (needed: bool)
        ensures
            needed == self@.checkpoint_needed(),
    {
        match self.config.max_bytes_between_checkpoints {
            Some(max) => self.bytes_since_checkpoint > max as u64,
            None => false,
        }
    }

    /// The sequence number of the last acknowledged flush, if any.
    pub fn last_checkpoint_seq(&self) -> (seq: Option<u64>)
        ensures
            seq == self@.last_checkpoint_seq,
    {
        self.last_checkpoint_seq
    }

    /// Snapshot of statistics. `starts` are the start sequences of the segment
    /// files listed on disk, ascending; none if they cannot be listed.
    pub fn stats(&self, starts: &Vec<u64>) -> (stats: WalStats)
        ensures
            stats == self@.stats(starts@),
    {
        WalStats {
            next_seq: self.next_seq,
            segment_count: starts.len(),
            oldest_seq: if starts.len() > 0 {
                Some(starts[0])
            } else {
                None
            },
            bytes_since_checkpoint: self.bytes_since_checkpoint,
            last_checkpoint_seq: self.last_checkpoint_seq,
            checkpoint_needed: self.checkpoint_needed(),
            roll_failures: self.roll_failures,
        }
    }

    /// The frame to write for an encoded entry.
    pub fn entry_frame(&self, payload: &[u8]) -> (r: Result<Vec<u8>, WalError>)
        ensures
            payload@.len() <= u32::MAX ==> (r matches Ok(bytes) && bytes@ == frame::frame_bytes(
                payload@,
                self@.view,
            ) && bytes@ == self@.framed(payload@)),
            payload@.len() > u32::MAX ==> r == Err::<Vec<u8>, WalError>(
                WalError::Format(FormatIssue::EntryTooLarge { len: payload@.len() as u64 }),
            ),
    {
        write_frame(payload, self.views.current())
    }

    /// The file of the segment to roll over to, for the encoded schema entry.
    pub fn roll_header(&self, payload: &[u8]) -> (r: Result<Vec<u8>, WalError>)
        ensures
            payload@.len() <= u32::MAX ==> (r matches Ok(bytes) && bytes@ == segment_header(
                payload@,
                self@.view,
            ) && bytes@ == self@.headed(payload@)),
            payload@.len() > u32::MAX ==> r == Err::<Vec<u8>, WalError>(
                WalError::Format(FormatIssue::EntryTooLarge { len: payload@.len() as u64 }),
            ),
    {
        build_segment_header(payload, self.views.current())
    }

    /// Whether an append of `payload_len` bytes leaves the active segment over
    /// its budget.
    pub fn roll_due(&self, payload_len: usize) -> (due: bool)
        requires
            self@.active_bytes + 16 + payload_len <= u64::MAX,
        ensures
            due == (self@.active_bytes + 16 + payload_len > self@.config.max_segment_bytes),
            due == self@.overflows(payload_len as int),
    {
        self.active_bytes + 16 + payload_len as u64 > self.config.max_segment_bytes as u64
    }

    fn publish_active_prefix(&mut self)
        requires
            ends::ascending(old(self)@.durable_ends),
        ensures
            final(self)@ == old(self)@.published(),
            final(self)@.wf(),
    {
        proof {
            ends::lemma_with_end(self.durable_ends@, self.active_start_seq, self.active_bytes);
        }
        ends::put_end(&mut self.durable_ends, self.active_start_seq, self.active_bytes);
        self.durable_next_seq = self.next_seq;
    }

    /// Removes an uncommitted rollover before the old segment can grow past
    /// its start sequence. It stays pending until the removal is durable, so a
    /// failure blocks later writes until a retry succeeds.
    pub fn cleanup_pending_roll(&mut self, io: CleanupIo) -> (r: Result<(), WalError>)
        requires
            old(self).wf(),
        ensures
            (final(self)@, r) == old(self)@.cleaned(io),
            final(self).wf(),
    {
        if self.pending_roll.is_some() {
            match io.removed {
                Err(IoError::UnexpectedEof) => {
                    return Err(WalError::Io(IoError::UnexpectedEof));
                },
                Err(IoError::Host(m)) => {
                    return Err(WalError::Io(IoError::Host(m)));
                },
                Err(IoError::NotFound) => {},
                Ok(_) => {},
            }
            if let Err(e) = io.synced {
                return Err(WalError::Io(e));
            }
            self.pending_roll = None;
        }
        Ok(())
    }

    /// Rolls to a new segment file. It is published only after
    /// synchronization; on failure it is removed and the current active
    /// segment is kept.
    pub fn roll_segment(&mut self, io: RollIo) -> (r: Result<(), WalError>)
        requires
            old(self).wf(),
        ensures
            (final(self)@, r) == old(self)@.rolled(io),
            final(self).wf(),
    {
        if let Err(e) = self.cleanup_pending_roll(io.cleanup) {
            return Err(e);
        }
        if let Err(e) = io.opened {
            return Err(WalError::Io(e));
        }
        match io.prepared {
            Ok(bytes) => {
                self.pending_roll = None;
                self.active_start_seq = self.next_seq;
                self.active_bytes = bytes;
                self.publish_active_prefix();
                Ok(())
            },
            Err(error) => {
                self.pending_roll = Some(self.next_seq);
                match self.cleanup_pending_roll(io.rollback) {
                    Err(e) => Err(e),
                    Ok(_) => Err(error),
                }
            },
        }
    }

    /// Appends an encoded record. Returns the sequence number assigned to it.
    ///
    /// If the active segment exceeds `max_segment_bytes` after the write,
    /// rollover to a new segment is attempted. Rollover failure is *not*
    /// propagated: the record is already durable in the current segment and the
    /// next append retries. If removing a failed segment also fails, later
    /// writes first retry that and return its error until it succeeds.
    pub fn append(&mut self, payload: Result<Vec<u8>, WalError>, io: AppendIo) -> (r: Result<
        u64,
        WalError,
    >)
        requires
            old(self).wf(),
            old(self)@.has_room(
                match payload {
                    Ok(bytes) => Ok(bytes@),
                    Err(e) => Err(e),
                },
                io,
            ),
        ensures
            (final(self)@, r) == old(self)@.appended(
                match payload {
                    Ok(bytes) => Ok(bytes@),
                    Err(e) => Err(e),
                },
                io,
            ),
            final(self).wf(),
    {
        if let Err(e) = self.cleanup_pending_roll(io.cleanup) {
            return Err(e);
        }
        let seq: u64 = self.next_seq;
        let bytes = match payload {
            Err(e) => {
                return Err(e);
            },
            Ok(bytes) => bytes,
        };
        if bytes.len() as u64 > u32::MAX as u64 {
            return Err(WalError::Format(FormatIssue::EntryTooLarge { len: bytes.len() as u64 }));
        }
        if let Err(e) = io.write {
            return Err(WalError::Io(e));
        }
        // The counters advance before the sync: bytes handed to the kernel may
        // survive a crash even if the sync reports failure, so the sequence
        // number must not be issued again.
        let frame_bytes: u64 = 16 + bytes.len() as u64;
        self.active_bytes = self.active_bytes + frame_bytes;
        self.bytes_since_checkpoint = self.bytes_since_checkpoint + frame_bytes;
        self.next_seq = self.next_seq + 1;
        if let Err(e) = io.sync {
            return Err(WalError::Io(e));
        }
        self.publish_active_prefix();
        if self.active_bytes > self.config.max_segment_bytes as u64 {
            if self.roll_segment(io.roll).is_err() {
                self.roll_failures = self.roll_failures + 1;
            }
        }
        Ok(seq)
    }

    /// Records that a flush up to `seq` was taken: an encoded checkpoint entry
    /// is written and synchronized, then published. Resets the checkpoint byte
    /// counter.
    pub fn acknowledge_flush(
        &mut self,
        seq: u64,
        payload: Result<Vec<u8>, WalError>,
        io: AppendIo,
    ) -> (r: Result<(), WalError>)
        requires
            old(self).wf(),
            seq <= old(self)@.next_seq,
            payload matches Ok(bytes) ==> (old(self)@.writes(Ok(bytes@), io)
                ==> old(self)@.active_bytes + 16 + bytes@.len() <= u64::MAX),
        ensures
            (final(self)@, r) == old(self)@.acknowledged(
                seq,
                match payload {
                    Ok(bytes) => Ok(bytes@),
                    Err(e) => Err(e),
                },
                io,
            ),
            final(self).wf(),
    {
        if let Err(e) = self.cleanup_pending_roll(io.cleanup) {
            return Err(e);
        }
        let bytes = match payload {
            Err(e) => {
                return Err(e);
            },
            Ok(bytes) => bytes,
        };
        if bytes.len() as u64 > u32::MAX as u64 {
            return Err(WalError::Format(FormatIssue::EntryTooLarge { len: bytes.len() as u64 }));
        }
        if let Err(e) = io.write {
            return Err(WalError::Io(e));
        }
        self.active_bytes = self.active_bytes + 16 + bytes.len() as u64;
        self.last_checkpoint_seq = Some(seq);
        self.bytes_since_checkpoint = 0;
        if let Err(e) = io.sync {
            return Err(WalError::Io(e));
        }
        self.publish_active_prefix();
        Ok(())
    }

    /// Deletes all segment files whose entire sequence range is before `seq`:
    /// those whose successor starts at or before it. The last segment is never
    /// deleted, and no segment of a pinned log is. `starts` lists the segment
    /// files, ascending; `removed` holds the outcome of removing each of the
    /// `deletable` ones, in order. Returns the number of segments deleted.
    pub fn delete_segments_before(
        &mut self,
        seq: u64,
        cleanup: CleanupIo,
        starts: &Vec<u64>,
        removed: &Vec<Result<(), IoError>>,
    ) -> (r: Result<usize, WalError>)
        requires
            old(self).wf(),
            old(self)@.deletable(starts@, seq) <= removed@.len(),
        ensures
            (final(self)@, r) == old(self)@.deleted(seq, cleanup, starts@, removed@),
            listed(starts@, old(self)@.active_start_seq) ==> final(self).wf(),
    {
        let ghost io = cleanup;
        proof {
            if listed(starts@, self@.active_start_seq) {
                wal_laws::law_deletion_keeps_active_segment(self@, seq, io, starts@, removed@);
            }
        }
        if let Err(e) = self.cleanup_pending_roll(cleanup) {
            return Err(e);
        }
        if self.pinned {
            return Ok(0);
        }
        let ghost cleaned = self@;
        let mut i: usize = 0;
        while starts.len() > 0 && i < starts.len() - 1 && starts[i + 1] <= seq
            invariant
                i <= starts@.len(),
                starts@.len() > 0 ==> i < starts@.len(),
                i + deletable_count(starts@, seq, i as int) <= removed@.len(),
                io == cleanup,
                !cleaned.pinned,
                listed(starts@, old(self)@.active_start_seq) ==> old(self)@.deleted(
                    seq,
                    io,
                    starts@,
                    removed@,
                ).0.wf(),
                old(self)@.cleaned(io) == (cleaned, Ok::<(), WalError>(())),
                cleaned.deleted_from(seq, starts@, removed@, 0) == self@.deleted_from(
                    seq,
                    starts@,
                    removed@,
                    i as int,
                ),
            decreases starts@.len() - i,
        {
            proof {
                lemma_deletable_nonnegative(starts@, seq, i + 1);
            }
            if let Err(e) = &removed[i] {
                return Err(WalError::Io(e.duplicate()));
            }
            ends::remove_start(&mut self.durable_ends, starts[i]);
            i = i + 1;
        }
        Ok(i)
    }

    /// How many of the oldest segments `starts`, ascending, lie wholly before
    /// `seq` and may be deleted. The last one never may, and none of a pinned
    /// log.
    pub fn deletable(&self, starts: &Vec<u64>, seq: u64) -> (n: usize)
        ensures
            n == self@.deletable(starts@, seq),
    {
        if self.pinned {
            return 0;
        }
        let mut i: usize = 0;
        while starts.len() > 0 && i < starts.len() - 1 && starts[i + 1] <= seq
            invariant
                i <= starts@.len(),
                starts@.len() > 0 ==> i < starts@.len(),
                deletable_count(starts@, seq, 0) == i + deletable_count(starts@, seq, i as int),
            decreases starts@.len() - i,
        {
            i = i + 1;
        }
        i
    }

    /// Keeps every segment from here on: followers need the fence context of
    /// the whole prefix.
    pub fn pin_replication_prefix(&mut self)
        ensures
            final(self)@ == (WalView { pinned: true, ..old(self)@ }),
    {
        self.pinned = true;
    }

    /// Opens the log over the segment files of a directory, listed ascending:
    /// the last one is active. Its torn, corrupt or stale tail is cut off, and
    /// the sequence number, checkpoint position and view counter are recovered.
    /// `payload` is the encoded schema entry, for a header to be rewritten.
    pub fn open(
        segments: &Vec<SegmentImage>,
        schema: WalSchema,
        config: WalConfig,
        payload: &[u8],
    ) -> (r: Result<Recovery, WalError>)
        requires
            segment::images_wf(segments@),
            recovery::recoverable(segments@),
            payload@.len() + 20 <= u64::MAX,
        ensures
            match recovery::recovered(segments@, schema@, config, payload@) {
                Err(e) => r == Err::<Recovery, WalError>(e),
                Ok(v) => r matches Ok(rec) && rec.wal.wf() && rec.wal@ == v.wal && rec.truncate_to
                    == v.truncate_to && match rec.header {
                    Some(bytes) => v.header == Some(bytes@),
                    None => v.header is None,
                },
            },
    {
        if segments.len() == 0 {
            return Err(WalError::Format(FormatIssue::Text("no WAL segments found in directory")));
        }
        let sealed: usize = segments.len() - 1;
        if let Err(e) = validate_magics(segments) {
            return Err(e);
        }
        let active = &segments[sealed];
        let sealed_view: u64 = scan_max_view(segments, sealed);
        let scan = scan_active_segment(active, sealed_view);
        let live_view: u64 = views::greater(sealed_view, scan.max_kept_view);
        let truncate_to: u64 = scan.pos;
        let mut active_bytes: u64 = scan.pos;
        let mut header: Option<Vec<u8>> = None;
        if active_bytes <= segment::SEGMENT_MAGIC_SIZE {
            match build_segment_header(payload, live_view) {
                Err(e) => {
                    return Err(e);
                },
                Ok(bytes) => {
                    active_bytes = 20 + payload.len() as u64;
                    header = Some(bytes);
                },
            }
        }
        let next_seq: u64 = match recover_next_seq(segments, &scan) {
            Err(e) => {
                return Err(e);
            },
            Ok(seq) => seq,
        };
        let (last_checkpoint_seq, bytes_since_checkpoint) = match recover_checkpoint(
            segments,
            &scan,
        ) {
            Err(e) => {
                return Err(e);
            },
            Ok(found) => found,
        };
        let mut durable_ends: Vec<(u64, u64)> = Vec::new();
        let mut i: usize = 0;
        while i < sealed
            invariant
                i <= sealed < segments@.len(),
                durable_ends@ == recovery::sealed_ends(segments@, i as int),
                ends::ascending(durable_ends@),
            decreases sealed - i,
        {
            proof {
                ends::lemma_with_end(
                    durable_ends@,
                    segments@[i as int].start_seq,
                    segments@[i as int].meta.len,
                );
            }
            ends::put_end(&mut durable_ends, segments[i].start_seq, segments[i].meta.len);
            i = i + 1;
        }
        let mut wal = Wal {
            active_start_seq: active.start_seq,
            active_bytes,
            next_seq,
            durable_next_seq: next_seq,
            durable_ends,
            config,
            schema,
            last_checkpoint_seq,
            bytes_since_checkpoint,
            roll_failures: 0,
            pending_roll: None,
            views: Views::with_current(live_view),
            pinned: false,
        };
        wal.publish_active_prefix();
        Ok(Recovery { wal, truncate_to, header })
    }
}

/// Segment files are listed ascending, and the active one is the last.
pub open spec fn listed(starts: Seq<u64>, active: u64) -> bool {
    &&& starts.len() > 0
    &&& starts.last() == active
    &&& forall|a: int, b: int| 0 <= a < b < starts.len() ==> starts[a] < starts[b]
}

/// The number of segments `starts[i..]` that lie wholly before `seq`, counted
/// from the oldest; the last one never does.
pub open spec fn deletable_count(starts: Seq<u64>, seq: u64, i: int) -> int
    decreases starts.len() - i,
{
    if i < 0 || i + 1 >= starts.len() || starts[i + 1] > seq {
        0
    } else {
        1 + deletable_count(starts, seq, i + 1)
    }
}

proof fn lemma_deletable_nonnegative(starts: Seq<u64>, seq: u64, i: int)
    ensures
        deletable_count(starts, seq, i) >= 0,
    decreases starts.len() - i,
{
    if 0 <= i && i + 1 < starts.len() {
        lemma_deletable_nonnegative(starts, seq, i + 1);
    }
}
} // verus!
