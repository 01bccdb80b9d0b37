//! Durable ingestion of raw ranges: validate, journal, synchronize, apply.
use crate::apply::{Codecs, WorldShape};
use crate::crc;
use crate::error::{FormatIssue, IoError, WalError};
use crate::frame;
use crate::frame::{write_frame, FrameAt, FrameView, RawFrame};
use crate::plan;
use crate::plan::{DecodedRun, PlanView, ValidatedRange};
use crate::plan_laws;
use crate::range::{WalFrameRange, WalRangeLimits};
use crate::replication;
use crate::replication::{Follower, FollowerError, FollowerView};
use vstd::bytes::*;
use vstd::prelude::*;
use vstd::slice::*;

verus! {

/// Size of the journal header: magic, history and CRC-32.
pub const JOURNAL_HEADER_SIZE: u64 = 24;

#[derive(Clone, Debug, PartialEq, Eq)]
pub enum IngestError {
    HistoryMismatch,
    Wal(WalError),
    Follower(FollowerError),
}

/// The magic `MKI1` and a history identifier.
pub open spec fn journal_lead(history: Seq<u8>) -> Seq<u8> {
    seq![0x4du8, 0x4b, 0x49, 0x31] + history
}

/// The header of a journal for `history`.
pub open spec fn journal_header(history: Seq<u8>) -> Seq<u8> {
    journal_lead(history) + spec_u32_to_le_bytes(crc::crc32(journal_lead(history)))
}

/// What checking the header of a journal gives.
pub open spec fn header_check(bytes: Seq<u8>, history: Seq<u8>) -> Result<(), IngestError> {
    if bytes.len() < 24 {
        Err(IngestError::Wal(WalError::Io(IoError::UnexpectedEof)))
    } else if bytes.take(4) != journal_lead(Seq::empty()) || crc::crc32(bytes.take(20))
        != spec_u32_from_le_bytes(bytes.subrange(20, 24)) {
        Err(
            IngestError::Wal(
                WalError::Format(FormatIssue::Text("invalid ingest journal header")),
            ),
        )
    } else if bytes.subrange(4, 20) != history {
        Err(IngestError::HistoryMismatch)
    } else {
        Ok(())
    }
}

fn same_bytes(a: &[u8], b: &[u8]) -> (same: bool)
    ensures
        same == (a@ == b@),
{
    if a.len() != b.len() {
        return false;
    }
    let mut i: usize = 0;
    while i < a.len()
        invariant
            i <= a@.len(),
            a@.len() == b@.len(),
            forall|k: int| 0 <= k < i ==> a@[k] == b@[k],
        decreases a@.len() - i,
    {
        if a[i] != b[i] {
            return false;
        }
        i = i + 1;
    }
    assert(a@ =~= b@);
    true
}

/// The header that a new journal starts with.
pub fn build_journal_header(history: &[u8; 16]) -> (header: Vec<u8>)
    ensures
        header@ == journal_header(history@),
        header@.len() == 24,
{
    let mut header: Vec<u8> = Vec::new();
    header.push(0x4d);
    header.push(0x4b);
    header.push(0x49);
    header.push(0x31);
    frame::append_slice(&mut header, history.as_slice());
    assert(header@ =~= journal_lead(history@));
    let crc: u32 = crc::checksum(header.as_slice());
    frame::append_slice(&mut header, u32_to_le_bytes(crc).as_slice());
    header
}

fn check_header(bytes: &[u8], history: &[u8; 16]) -> (r: Result<(), IngestError>)
    ensures
        r == header_check(bytes@, history@),
{
    if bytes.len() < 24 {
        return Err(IngestError::Wal(WalError::Io(IoError::UnexpectedEof)));
    }
    let valid_magic = bytes[0] == 0x4d && bytes[1] == 0x4b && bytes[2] == 0x49 && bytes[3] == 0x31;
    proof {
        let magic = journal_lead(Seq::empty());
        if valid_magic {
            assert(bytes@.take(4) =~= magic);
        } else {
            assert(magic[0] == 0x4d && magic[1] == 0x4b && magic[2] == 0x49 && magic[3] == 0x31);
            assert(bytes@.take(4)[0] == bytes@[0] && bytes@.take(4)[1] == bytes@[1]
                && bytes@.take(4)[2] == bytes@[2] && bytes@.take(4)[3] == bytes@[3]);
        }
        assert(bytes@.subrange(0, 20) =~= bytes@.take(20));
    }
    let stored: u32 = u32_from_le_bytes(slice_subrange(bytes, 20, 24));
    if !valid_magic || crc::checksum(slice_subrange(bytes, 0, 20)) != stored {
        return Err(
            IngestError::Wal(
                WalError::Format(FormatIssue::Text("invalid ingest journal header")),
            ),
        );
    }
    if !same_bytes(slice_subrange(bytes, 4, 20), history.as_slice()) {
        return Err(IngestError::HistoryMismatch);
    }
    Ok(())
}

/// A new journal's header is accepted for its own history.
pub proof fn law_journal_header_reads_back(history: Seq<u8>, rest: Seq<u8>)
    requires
        history.len() == 16,
    ensures
        header_check(journal_header(history) + rest, history) == Ok::<(), IngestError>(()),
{
    lemma_auto_spec_u32_to_from_le_bytes();
    let lead = journal_lead(history);
    let bytes = journal_header(history) + rest;
    assert(bytes.take(4) =~= journal_lead(Seq::empty()));
    assert(bytes.take(20) =~= lead);
    assert(bytes.subrange(20, 24) =~= spec_u32_to_le_bytes(crc::crc32(lead)));
    assert(bytes.subrange(4, 20) =~= history);
}

/// A new journal's header is refused for any other history.
pub proof fn law_journal_header_binds_history(history: Seq<u8>, other: Seq<u8>, rest: Seq<u8>)
    requires
        history.len() == 16,
        other != history,
    ensures
        header_check(journal_header(history) + rest, other) == Err::<(), IngestError>(
            IngestError::HistoryMismatch,
        ),
{
    law_journal_header_reads_back(history, rest);
    let bytes = journal_header(history) + rest;
    lemma_auto_spec_u32_to_from_le_bytes();
    assert(bytes.subrange(4, 20) =~= history);
}

/// The view field of a journal frame guards its length prefix.
pub open spec fn length_guard(len: u32) -> u64 {
    (u64::MAX - len) as u64
}

/// The bytes appended to a journal for an encoded entry.
pub open spec fn journal_frame(payload: Seq<u8>) -> Seq<u8> {
    frame::frame_bytes(payload, length_guard(payload.len() as u32))
}

/// What stands at one position of a journal.
pub enum JournalAt {
    /// The journal ends here.
    End,
    /// The last frame was cut short: the journal is to be cut to here.
    Torn,
    Corrupt(WalError),
    Entry(FrameView),
}

pub open spec fn journal_at(bytes: Seq<u8>, pos: int) -> JournalAt {
    if pos < 0 || pos >= bytes.len() {
        JournalAt::End
    } else if pos + 16 <= bytes.len() && frame::header_view(bytes.subrange(pos, pos + 16))
        != length_guard(frame::header_len(bytes.subrange(pos, pos + 16))) {
        JournalAt::Corrupt(
            WalError::Format(FormatIssue::Text("corrupt ingest journal length header")),
        )
    } else {
        match frame::frame_at(bytes, pos) {
            FrameAt::ShortHeader | FrameAt::ShortPayload { .. } => JournalAt::Torn,
            FrameAt::TooLarge { len, .. } => JournalAt::Corrupt(
                WalError::Format(FormatIssue::FrameTooLarge { offset: pos as u64, len: len as u64 }),
            ),
            FrameAt::Whole(f) => if crc::crc32(f.payload) == frame::header_crc(f.header) {
                JournalAt::Entry(f)
            } else {
                JournalAt::Corrupt(
                    WalError::ChecksumMismatch {
                        offset: pos as u64,
                        expected: frame::header_crc(f.header),
                        actual: crc::crc32(f.payload),
                    },
                )
            },
        }
    }
}

/// What was journaled last is read back at its place.
pub proof fn law_journal_entry_reads_back(lead: Seq<u8>, payload: Seq<u8>, rest: Seq<u8>)
    requires
        payload.len() <= frame::MAX_FRAME_SIZE,
    ensures
        journal_at(lead + journal_frame(payload) + rest, lead.len() as int) == JournalAt::Entry(
            FrameView {
                offset: lead.len() as int,
                header: frame::frame_header(payload, length_guard(payload.len() as u32)),
                payload,
            },
        ),
{
    let guard = length_guard(payload.len() as u32);
    crate::frame_laws::law_header_reads_back(payload, guard);
    let bytes = lead + journal_frame(payload) + rest;
    let pos = lead.len() as int;
    assert(bytes.subrange(pos, pos + 16) =~= frame::frame_header(payload, guard));
    assert(bytes.subrange(pos + 16, pos + 16 + payload.len()) =~= payload);
}

/// A journal whose last write was cut short anywhere is cut back to the entry
/// before it.
pub proof fn law_torn_journal_write_is_dropped(lead: Seq<u8>, payload: Seq<u8>, kept: int)
    requires
        payload.len() <= frame::MAX_FRAME_SIZE,
        0 < kept < journal_frame(payload).len(),
    ensures
        journal_at(lead + journal_frame(payload).take(kept), lead.len() as int) is Torn,
{
    let guard = length_guard(payload.len() as u32);
    crate::frame_laws::law_header_reads_back(payload, guard);
    let bytes = lead + journal_frame(payload).take(kept);
    let pos = lead.len() as int;
    if kept >= 16 {
        assert(bytes.subrange(pos, pos + 16) =~= frame::frame_header(payload, guard));
    }
}

/// What the host finds at one position of a journal.
pub enum JournalStep {
    /// All entries are read; the journal file is to be `keep` bytes long.
    Done { keep: u64 },
    /// An entry to decode and replay.
    Entry(RawFrame),
}

/// Looks at position `pos` of a journal. An incomplete final frame ends it;
/// a complete frame that is corrupt refuses it.
pub fn read_journal(bytes: &[u8], pos: usize) -> (r: Result<JournalStep, IngestError>)
    requires
        pos <= bytes@.len(),
    ensures
        match journal_at(bytes@, pos as int) {
            JournalAt::End | JournalAt::Torn => r == Ok::<JournalStep, IngestError>(
                JournalStep::Done { keep: pos as u64 },
            ),
            JournalAt::Corrupt(e) => r == Err::<JournalStep, IngestError>(IngestError::Wal(e)),
            JournalAt::Entry(f) => r matches Ok(JournalStep::Entry(raw)) && raw@ == f && raw.wf(),
        },
{
    if pos >= bytes.len() {
        return Ok(JournalStep::Done { keep: pos as u64 });
    }
    if bytes.len() - pos >= 16 {
        let header = slice_subrange(bytes, pos, pos + 16);
        let len: u32 = u32_from_le_bytes(slice_subrange(header, 0, 4));
        let guard: u64 = u64_from_le_bytes(slice_subrange(header, 8, 16));
        if guard != u64::MAX - len as u64 {
            return Err(
                IngestError::Wal(
                    WalError::Format(FormatIssue::Text("corrupt ingest journal length header")),
                ),
            );
        }
    }
    match RawFrame::read_from(bytes, pos) {
        Err(e) => Err(IngestError::Wal(e)),
        Ok(None) => Ok(JournalStep::Done { keep: pos as u64 }),
        Ok(Some(raw)) => match raw.verify() {
            Err(e) => Err(IngestError::Wal(e)),
            Ok(_) => Ok(JournalStep::Entry(raw)),
        },
    }
}

/// A journaled range with the history that it came from.
#[derive(Clone, Debug, PartialEq, Eq)]
pub struct JournalEntry {
    pub history: [u8; 16],
    pub range: WalFrameRange,
}

/// Outcome of appending to the journal.
#[derive(Debug, PartialEq, Eq)]
pub struct JournalIo {
    pub write: Result<(), IoError>,
    pub sync: Result<(), IoError>,
}

/// A journaled follower as mathematical values.
#[verifier::ext_equal]
pub struct IngestView {
    pub history: Seq<u8>,
    pub limits: WalRangeLimits,
    pub follower: FollowerView,
    pub view: u64,
    pub world: WorldShape,
    pub codecs: Codecs,
}

impl IngestView {
    pub open spec fn poison(self) -> IngestView {
        IngestView { follower: self.follower.poison(), ..self }
    }

    /// What preflighting a range comes to: the plan to carry out, or nothing
    /// for a range that brings neither a record nor a newer view.
    pub open spec fn prepared(
        self,
        history: Seq<u8>,
        range: WalFrameRange,
        decoded: Seq<DecodedRun>,
    ) -> Result<Option<PlanView>, IngestError> {
        if self.follower.poisoned {
            Err(IngestError::Follower(FollowerError::Poisoned))
        } else if history != self.history {
            Err(IngestError::HistoryMismatch)
        } else if range.from_seq > self.follower.applied {
            Err(
                IngestError::Follower(
                    FollowerError::Gap { expected: self.follower.applied, got: range.from_seq },
                ),
            )
        } else {
            match plan::range_plan(
                range,
                decoded,
                self.view,
                self.follower.applied,
                self.limits,
                self.world,
                self.codecs,
            ) {
                Err(e) => Err(IngestError::Wal(e)),
                Ok(plan) => if range.next_seq <= self.follower.applied && plan.max_view
                    == self.view {
                    Ok(None)
                } else {
                    Ok(Some(plan))
                },
            }
        }
    }

    /// What carrying out a plan comes to.
    pub open spec fn executed(self, plan: PlanView, outcomes: Seq<Result<(), WalError>>) -> (
        IngestView,
        Result<u64, IngestError>,
    ) {
        let (follower, r) = plan.followed(self.follower, outcomes, 0);
        match r {
            Err(e) => (IngestView { follower, ..self }, Err(IngestError::Follower(e))),
            Ok(view) => (
                IngestView {
                    follower,
                    view,
                    world: WorldShape {
                        columns: self.world.columns,
                        tick: if plan.records.len() > 0 {
                            (plan.records.last().tick_after + 1) as u64
                        } else {
                            self.world.tick
                        },
                    },
                    ..self
                },
                Ok(follower.applied),
            ),
        }
    }

    /// Why a planned range cannot be journaled.
    pub open spec fn journal_error(payload: Result<Seq<u8>, WalError>, io: JournalIo) -> Option<
        WalError,
    > {
        match payload {
            Err(e) => Some(e),
            Ok(bytes) => if bytes.len() > frame::MAX_FRAME_SIZE {
                Some(
                    WalError::Format(
                        FormatIssue::Text("ingest envelope exceeds maximum frame size"),
                    ),
                )
            } else {
                match io.write {
                    Err(e) => Some(WalError::Io(e)),
                    Ok(_) => match io.sync {
                        Err(e) => Some(WalError::Io(e)),
                        Ok(_) => None,
                    },
                }
            },
        }
    }

    /// What ingesting a range comes to. Any error poisons.
    pub open spec fn ingested(
        self,
        history: Seq<u8>,
        range: WalFrameRange,
        decoded: Seq<DecodedRun>,
        payload: Result<Seq<u8>, WalError>,
        io: JournalIo,
        outcomes: Seq<Result<(), WalError>>,
    ) -> (IngestView, Result<u64, IngestError>) {
        match self.prepared(history, range, decoded) {
            Err(e) => (self.poison(), Err(e)),
            Ok(None) => (self, Ok(self.follower.applied)),
            Ok(Some(plan)) => match IngestView::journal_error(payload, io) {
                Some(e) => (self.poison(), Err(IngestError::Wal(e))),
                None => {
                    let (next, r) = self.executed(plan, outcomes);
                    match r {
                        Err(e) => (next.poison(), Err(e)),
                        Ok(applied) => (next, Ok(applied)),
                    }
                },
            },
        }
    }

    /// What replaying a journaled range comes to: as ingesting it, without
    /// journaling it again.
    pub open spec fn replayed(
        self,
        history: Seq<u8>,
        range: WalFrameRange,
        decoded: Seq<DecodedRun>,
        outcomes: Seq<Result<(), WalError>>,
    ) -> (IngestView, Result<u64, IngestError>) {
        match self.prepared(history, range, decoded) {
            Err(e) => (self, Err(e)),
            Ok(None) => (self, Ok(self.follower.applied)),
            Ok(Some(plan)) => self.executed(plan, outcomes),
        }
    }

    /// The frames of `range` are decoded, as far as it is looked at.
    pub open spec fn decoded_for(self, range: WalFrameRange, decoded: Seq<DecodedRun>) -> bool {
        plan::head_error(range@, self.follower.applied, self.limits) is None
            ==> plan::decodes_range(range, decoded)
    }

    /// The records of the plan were applied, as far as there is one.
    pub open spec fn outcomes_for(
        self,
        history: Seq<u8>,
        range: WalFrameRange,
        decoded: Seq<DecodedRun>,
        outcomes: Seq<Result<(), WalError>>,
    ) -> bool {
        self.prepared(history, range, decoded) matches Ok(Some(plan))
            ==> replication::outcomes_cover(outcomes, plan.records.len() as int)
    }
}

/// Durable raw-range ingestion for one authoritative source history.
///
/// Restart reconstructs world state and progress by replaying the whole
/// journal over an empty baseline. Ingestion checks the history on every call.
/// The world itself is the host's; reads go through `read_at`.
pub struct JournaledFollower {
    history: [u8; 16],
    limits: WalRangeLimits,
    follower: Follower,
    view: u64,
    world: WorldShape,
    codecs: Codecs,
}

impl JournaledFollower {
    /// The follower as mathematical values.
    pub closed spec fn state(&self) -> IngestView {
        IngestView {
            history: self.history@,
            limits: self.limits,
            follower: self.follower@,
            view: self.view,
            world: self.world,
            codecs: self.codecs,
        }
    }
}

/// A follower that has applied nothing.
pub open spec fn empty_follower(
    history: Seq<u8>,
    codecs: Codecs,
    world: WorldShape,
    limits: WalRangeLimits,
) -> IngestView {
    IngestView {
        history,
        limits,
        follower: FollowerView { applied: 0, poisoned: false },
        view: 0,
        world,
        codecs,
    }
}

impl JournaledFollower {
    /// A follower of `history` that starts from sequence zero, over an empty
    /// world in which the codecs are registered. The bytes returned are its new
    /// journal file, to be written and synchronized before it is used.
    pub fn create(
        history: [u8; 16],
        codecs: Codecs,
        world: WorldShape,
        limits: WalRangeLimits,
    ) -> (r: Result<(JournaledFollower, Vec<u8>), IngestError>)
        ensures
            !limits.positive() ==> r == Err::<(JournaledFollower, Vec<u8>), IngestError>(
                IngestError::Wal(WalError::InvalidRangeLimits),
            ),
            limits.positive() ==> (r matches Ok((follower, header)) && header@ == journal_header(
                history@,
            ) && follower.state() == empty_follower(history@, codecs, world, limits)),
    {
        if let Err(e) = limits.validate() {
            return Err(IngestError::Wal(e));
        }
        let header = build_journal_header(&history);
        Ok((Self::empty(history, codecs, world, limits), header))
    }

    /// Starts to restore a follower from its journal file: checks the limits
    /// and the header. The entries follow from `JOURNAL_HEADER_SIZE` on; see
    /// `read_journal` and `replay_entry`. The follower must not be used unless
    /// every entry was replayed.
    pub fn begin_open(
        bytes: &[u8],
        history: [u8; 16],
        codecs: Codecs,
        world: WorldShape,
        limits: WalRangeLimits,
    ) -> (r: Result<JournaledFollower, IngestError>)
        ensures
            match open_check(bytes@, history@, limits) {
                Err(e) => r == Err::<JournaledFollower, IngestError>(e),
                Ok(_) => r matches Ok(follower) && follower.state() == empty_follower(
                    history@,
                    codecs,
                    world,
                    limits,
                ),
            },
    {
        if let Err(e) = limits.validate() {
            return Err(IngestError::Wal(e));
        }
        if let Err(e) = check_header(bytes, &history) {
            return Err(e);
        }
        Ok(Self::empty(history, codecs, world, limits))
    }

    fn empty(history: [u8; 16], codecs: Codecs, world: WorldShape, limits: WalRangeLimits) -> (f:
        JournaledFollower)
        ensures
            f.state() == empty_follower(history@, codecs, world, limits),
    {
        JournaledFollower { history, limits, follower: Follower::new(), view: 0, world, codecs }
    }

    /// Restores a follower from its journal file. `work` holds, for each entry
    /// in order, how the host decoded and applied it, up to the first failure.
    /// An incomplete final frame is dropped; a complete corrupt one refuses the
    /// journal, and no follower escapes if an entry fails. The number returned
    /// is the length to cut the journal file to.
    pub fn open(
        bytes: &[u8],
        history: [u8; 16],
        codecs: Codecs,
        world: WorldShape,
        limits: WalRangeLimits,
        work: &Vec<EntryWork>,
    ) -> (r: Result<(JournaledFollower, u64), IngestError>)
        requires
            open_check(bytes@, history@, limits) is Ok ==> work_ready(
                empty_follower(history@, codecs, world, limits),
                bytes@,
                24,
                work@,
                0,
            ),
        ensures
            match open_check(bytes@, history@, limits) {
                Err(e) => r == Err::<(JournaledFollower, u64), IngestError>(e),
                Ok(_) => match journal_run(
                    empty_follower(history@, codecs, world, limits),
                    bytes@,
                    24,
                    work@,
                    0,
                ) {
                    Err(e) => r == Err::<(JournaledFollower, u64), IngestError>(e),
                    Ok((view, keep)) => r matches Ok((follower, k)) && follower.state() == view && k
                        == keep,
                },
            },
    {
        let mut follower = match Self::begin_open(bytes, history, codecs, world, limits) {
            Err(e) => {
                return Err(e);
            },
            Ok(follower) => follower,
        };
        let ghost start = follower.state();
        let total: usize = bytes.len();
        let entries: usize = work.len();
        let mut pos: usize = 24;
        let mut n: usize = 0;
        loop
            invariant
                total == bytes@.len(),
                24 <= pos <= total,
                open_check(bytes@, history@, limits) is Ok,
                start == empty_follower(history@, codecs, world, limits),
                n <= entries,
                entries == work@.len(),
                work_ready(follower.state(), bytes@, pos as int, work@, n as int),
                journal_run(start, bytes@, 24, work@, 0) == journal_run(
                    follower.state(),
                    bytes@,
                    pos as int,
                    work@,
                    n as int,
                ),
            decreases total - pos,
        {
            let frame = match read_journal(bytes, pos) {
                Err(e) => {
                    return Err(e);
                },
                Ok(JournalStep::Done { keep }) => {
                    return Ok((follower, keep));
                },
                Ok(JournalStep::Entry(frame)) => frame,
            };
            let one = &work[n];
            match &one.entry {
                Err(detail) => {
                    return Err(
                        IngestError::Wal(
                            WalError::Format(
                                FormatIssue::InvalidJournalEntry { detail: detail.clone() },
                            ),
                        ),
                    );
                },
                Ok(entry) => {
                    if let Err(e) = follower.replay_entry(entry, &one.decoded, &one.outcomes) {
                        return Err(e);
                    }
                },
            }
            pos = pos + 16 + frame.payload_len();
            n = n + 1;
        }
    }

    /// Preflights a range for this follower. The plan's records are to be
    /// applied to the world once the range is journaled, with their component
    /// bytes checked; `None` means that the range brings nothing new.
    pub fn prepare(
        &self,
        history: &[u8; 16],
        range: &WalFrameRange,
        decoded: &Vec<DecodedRun>,
    ) -> (r: Result<Option<ValidatedRange>, IngestError>)
        requires
            self.state().decoded_for(*range, decoded@),
        ensures
            match self.state().prepared(history@, *range, decoded@) {
                Err(e) => r == Err::<Option<ValidatedRange>, IngestError>(e),
                Ok(None) => r matches Ok(None),
                Ok(Some(plan)) => r matches Ok(Some(p)) && p@ == plan,
            },
            r matches Ok(Some(p)) ==> p.checked,
    {
        if self.follower.is_poisoned() {
            return Err(IngestError::Follower(FollowerError::Poisoned));
        }
        if !same_bytes(history.as_slice(), self.history.as_slice()) {
            return Err(IngestError::HistoryMismatch);
        }
        let applied: u64 = self.follower.applied_seq();
        if range.from_seq > applied {
            return Err(
                IngestError::Follower(
                    FollowerError::Gap { expected: applied, got: range.from_seq },
                ),
            );
        }
        match ValidatedRange::from_frames_after(
            range,
            decoded,
            self.view,
            applied,
            self.limits,
            &self.world,
            &self.codecs,
        ) {
            Err(e) => Err(IngestError::Wal(e)),
            Ok(plan) => {
                if range.next_seq <= applied && plan.view_after() == self.view {
                    Ok(None)
                } else {
                    Ok(Some(plan))
                }
            },
        }
    }

    /// The frame to append to the journal for an encoded entry.
    pub fn entry_frame(payload: &[u8]) -> (r: Result<Vec<u8>, WalError>)
        ensures
            payload@.len() <= frame::MAX_FRAME_SIZE ==> (r matches Ok(bytes) && bytes@
                == journal_frame(payload@)),
            payload@.len() > frame::MAX_FRAME_SIZE ==> r == Err::<Vec<u8>, WalError>(
                WalError::Format(FormatIssue::Text("ingest envelope exceeds maximum frame size")),
            ),
    {
        if payload.len() > frame::MAX_FRAME_SIZE {
            return Err(
                WalError::Format(FormatIssue::Text("ingest envelope exceeds maximum frame size")),
            );
        }
        write_frame(payload, u64::MAX - payload.len() as u64)
    }

    fn execute(&mut self, plan: ValidatedRange, outcomes: &Vec<Result<(), WalError>>) -> (r: Result<
        u64,
        IngestError,
    >)
        requires
            forall|i: int|
                0 <= i < plan@.records.len() ==> (#[trigger] plan@.records[i]).seq < u64::MAX
                    && plan@.records[i].tick_after < u64::MAX,
            replication::outcomes_cover(outcomes@, plan@.records.len() as int),
        ensures
            (final(self).state(), r) == old(self).state().executed(plan@, outcomes@),
    {
        let n: usize = plan.records.len();
        let tick: u64 = if n > 0 {
            assert(plan@.records[n - 1].tick_after < u64::MAX);
            plan.records[n - 1].tick_after + 1
        } else {
            self.world.tick
        };
        match plan.execute_following(&mut self.follower, outcomes) {
            Err(e) => Err(IngestError::Follower(e)),
            Ok(view) => {
                self.view = view;
                self.world.tick = tick;
                Ok(self.follower.applied_seq())
            },
        }
    }

    /// Accounts for the replay of a journaled entry, which is not journaled
    /// again.
    pub fn replay_entry(
        &mut self,
        entry: &JournalEntry,
        decoded: &Vec<DecodedRun>,
        outcomes: &Vec<Result<(), WalError>>,
    ) -> (r: Result<u64, IngestError>)
        requires
            old(self).state().decoded_for(entry.range, decoded@),
            old(self).state().outcomes_for(entry.history@, entry.range, decoded@, outcomes@),
        ensures
            (final(self).state(), r) == old(self).state().replayed(
                entry.history@,
                entry.range,
                decoded@,
                outcomes@,
            ),
    {
        match self.prepare(&entry.history, &entry.range, decoded) {
            Err(e) => Err(e),
            Ok(None) => Ok(self.follower.applied_seq()),
            Ok(Some(plan)) => {
                proof {
                    plan_laws::law_plan_covers_missing_slots(
                        entry.range,
                        decoded@,
                        self.state().view,
                        self.state().follower.applied,
                        self.state().limits,
                        self.state().world,
                        self.state().codecs,
                    );
                }
                self.execute(plan, outcomes)
            },
        }
    }

    /// Validates, journals, synchronizes, then applies a range. Only a
    /// successful return supplies a new pull position. Any error poisons this
    /// handle and its reads.
    ///
    /// `payload` is the encoded journal entry, `io` the outcome of appending
    /// its frame, and `outcomes` those of applying the plan's records in order,
    /// up to the first failure; they are looked at only as far as the range
    /// gets.
    pub fn ingest_frames(
        &mut self,
        history: &[u8; 16],
        range: &WalFrameRange,
        decoded: &Vec<DecodedRun>,
        payload: Result<Vec<u8>, WalError>,
        io: JournalIo,
        outcomes: &Vec<Result<(), WalError>>,
    ) -> (r: Result<u64, IngestError>)
        requires
            old(self).state().decoded_for(*range, decoded@),
            IngestView::journal_error(payload_view(payload), io) is None
                ==> old(self).state().outcomes_for(history@, *range, decoded@, outcomes@),
        ensures
            (final(self).state(), r) == old(self).state().ingested(
                history@,
                *range,
                decoded@,
                payload_view(payload),
                io,
                outcomes@,
            ),
    {
        let plan = match self.prepare(history, range, decoded) {
            Err(e) => {
                self.follower.poison();
                return Err(e);
            },
            Ok(None) => {
                return Ok(self.follower.applied_seq());
            },
            Ok(Some(plan)) => plan,
        };
        let bytes = match payload {
            Err(e) => {
                self.follower.poison();
                return Err(IngestError::Wal(e));
            },
            Ok(bytes) => bytes,
        };
        if bytes.len() > frame::MAX_FRAME_SIZE {
            self.follower.poison();
            return Err(
                IngestError::Wal(
                    WalError::Format(
                        FormatIssue::Text("ingest envelope exceeds maximum frame size"),
                    ),
                ),
            );
        }
        if let Err(e) = io.write {
            self.follower.poison();
            return Err(IngestError::Wal(WalError::Io(e)));
        }
        if let Err(e) = io.sync {
            self.follower.poison();
            return Err(IngestError::Wal(WalError::Io(e)));
        }
        proof {
            plan_laws::law_plan_covers_missing_slots(
                *range,
                decoded@,
                self.state().view,
                self.state().follower.applied,
                self.state().limits,
                self.state().world,
                self.state().codecs,
            );
        }
        match self.execute(plan, outcomes) {
            Err(e) => {
                self.follower.poison();
                Err(e)
            },
            Ok(applied) => Ok(applied),
        }
    }

    /// Exclusive successfully applied prefix, not merely received bytes.
    pub fn applied_seq(&self) -> (seq: u64)
        ensures
            seq == self.state().follower.applied,
    {
        self.follower.applied_seq()
    }

    /// The bounds that requests carry and ranges are held to.
    pub fn range_limits(&self) -> (limits: WalRangeLimits)
        ensures
            limits == self.state().limits,
    {
        self.limits
    }

    /// The source history that this follower is bound to.
    pub fn source_history(&self) -> (history: [u8; 16])
        ensures
            history@ == self.state().history,
    {
        self.history
    }

    /// The highest view ingested.
    pub fn view(&self) -> (view: u64)
        ensures
            view == self.state().view,
    {
        self.view
    }

    pub fn is_poisoned(&self) -> (poisoned: bool)
        ensures
            poisoned == self.state().follower.poisoned,
    {
        self.follower.is_poisoned()
    }

    /// The shape of the follower's world.
    pub fn world_shape(&self) -> (world: &WorldShape)
        ensures
            *world == self.state().world,
    {
        &self.world
    }

    /// Whether the world may be read at `seq`.
    pub fn read_at(&self, seq: u64) -> (r: Result<(), FollowerError>)
        ensures
            r == self.state().follower.readable(seq),
    {
        self.follower.read_at(seq)
    }
}

/// An encoding outcome by the bytes it gave.
pub open spec fn payload_view(payload: Result<Vec<u8>, WalError>) -> Result<Seq<u8>, WalError> {
    match payload {
        Ok(bytes) => Ok(bytes@),
        Err(e) => Err(e),
    }
}

/// What opening a journal checks before it replays.
pub open spec fn open_check(bytes: Seq<u8>, history: Seq<u8>, limits: WalRangeLimits) -> Result<
    (),
    IngestError,
> {
    if !limits.positive() {
        Err(IngestError::Wal(WalError::InvalidRangeLimits))
    } else {
        header_check(bytes, history)
    }
}

/// How the host decoded and applied one journal entry.
pub struct EntryWork {
    /// What the entry decoder makes of the frame's payload, or its complaint.
    pub entry: Result<JournalEntry, String>,
    /// The frames of the entry's range, decoded.
    pub decoded: Vec<DecodedRun>,
    /// Outcomes of applying the records that are due.
    pub outcomes: Vec<Result<(), WalError>>,
}

/// What replaying a journal from `pos` on gives: the follower and the length
/// of the journal that is kept.
pub open spec fn journal_run(
    follower: IngestView,
    bytes: Seq<u8>,
    pos: int,
    work: Seq<EntryWork>,
    n: int,
) -> Result<(IngestView, int), IngestError>
    decreases bytes.len() - pos,
{
    match journal_at(bytes, pos) {
        JournalAt::End | JournalAt::Torn => Ok((follower, pos)),
        JournalAt::Corrupt(e) => Err(IngestError::Wal(e)),
        JournalAt::Entry(f) => match work[n].entry {
            Err(detail) => Err(
                IngestError::Wal(WalError::Format(FormatIssue::InvalidJournalEntry { detail })),
            ),
            Ok(entry) => {
                let (next, r) = follower.replayed(
                    entry.history@,
                    entry.range,
                    work[n].decoded@,
                    work[n].outcomes@,
                );
                match r {
                    Err(e) => Err(e),
                    Ok(_) => journal_run(next, bytes, pos + 16 + f.payload.len(), work, n + 1),
                }
            },
        },
    }
}

/// `work` covers the entries from `pos` on, up to the first failure.
pub open spec fn work_ready(
    follower: IngestView,
    bytes: Seq<u8>,
    pos: int,
    work: Seq<EntryWork>,
    n: int,
) -> bool
    decreases bytes.len() - pos,
{
    match journal_at(bytes, pos) {
        JournalAt::Entry(f) => {
            &&& 0 <= n < work.len()
            &&& work[n].entry matches Ok(entry) ==> {
                &&& follower.decoded_for(entry.range, work[n].decoded@)
                &&& follower.outcomes_for(
                    entry.history@,
                    entry.range,
                    work[n].decoded@,
                    work[n].outcomes@,
                )
                &&& ({
                    let (next, r) = follower.replayed(
                        entry.history@,
                        entry.range,
                        work[n].decoded@,
                        work[n].outcomes@,
                    );
                    r is Ok ==> work_ready(next, bytes, pos + 16 + f.payload.len(), work, n + 1)
                })
            }
        },
        _ => true,
    }
}

} // verus!
