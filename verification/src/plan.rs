//! Replay plans: a range of frames or a log directory, validated as a whole
//! before any of it is applied.
use crate::apply;
use crate::apply::{
    build_apply_remap, validate_record_components, validate_record_tick, ApplyComponent,
    ApplyRemap, Codecs, WorldShape,
};
use crate::error::{FormatIssue, WalError};
use crate::frame;
use crate::frame::{DecodedFrame, RawFrame, StreamTail};
use crate::range;
use crate::range::{RangeView, WalFrameRange, WalRangeLimits, WalSegmentRun};
use crate::recovery;
use crate::record::{ComponentId, WalEntry, WalRecord};
use crate::replication;
use crate::replication::{Follower, FollowerError, FollowerView};
use crate::segment::SegmentImage;
use crate::views;
use crate::wal::Wal;
use vstd::prelude::*;

verus! {

broadcast use vstd::std_specs::hash::group_hash_axioms;

/// One record to apply: where its frame stands, the bindings to use, and its
/// position in the log.
#[derive(Clone, Copy, Debug, PartialEq, Eq)]
pub struct PlannedRecord {
    /// The run or segment, counted from 0.
    pub source: usize,
    /// The frame within it.
    pub frame: usize,
    /// The bindings within the plan.
    pub remap: usize,
    pub seq: u64,
    pub tick_after: u64,
}

/// A replay plan as mathematical values.
#[verifier::ext_equal]
pub struct PlanView {
    pub records: Seq<PlannedRecord>,
    pub remaps: Seq<Map<ComponentId, ApplyComponent>>,
    pub last_seq: u64,
    pub max_view: u64,
    /// Component bytes are checked when they are decoded.
    pub checked: bool,
}

pub open spec fn remap_views(remaps: Seq<ApplyRemap>) -> Seq<Map<ComponentId, ApplyComponent>> {
    Seq::new(remaps.len(), |i: int| remaps[i]@)
}

/// A validated replay plan. Its frames decoded, its components resolved and
/// its ticks advance; decoding component values and the world itself can still
/// fail when it is carried out.
pub struct ValidatedRange {
    pub records: Vec<PlannedRecord>,
    pub remaps: Vec<ApplyRemap>,
    pub last_seq: u64,
    pub max_view: u64,
    /// Component bytes are to be checked when they are decoded. Received bytes
    /// can carry a sound checksum and yet be no value of their component; what
    /// this log wrote itself needs no more than the checksum.
    pub checked: bool,
}

impl View for ValidatedRange {
    type V = PlanView;

    open spec fn view(&self) -> PlanView {
        PlanView {
            records: self.records@,
            remaps: remap_views(self.remaps@),
            last_seq: self.last_seq,
            max_view: self.max_view,
            checked: self.checked,
        }
    }
}

/// The frames of one run of a range.
pub struct RawRun {
    pub schema: Result<RawFrame, WalError>,
    pub frames: Vec<RawFrame>,
    /// Why the frame buffer ends before its last byte, if it does.
    pub failure: Option<WalError>,
}

/// The frames of one run of a range, decoded.
pub struct DecodedRun {
    pub schema: Result<DecodedFrame, WalError>,
    pub frames: Vec<DecodedFrame>,
    pub failure: Option<WalError>,
}

/// Why a frame buffer does not consist of whole frames.
pub open spec fn stream_failure(bytes: Seq<u8>) -> Option<WalError> {
    let end = frame::stream_end(bytes, 0);
    if end == bytes.len() {
        None
    } else {
        frame::buffer_error(bytes, end)
    }
}

/// `schema`, `frames` and `failure` are what splitting `run` gives.
pub open spec fn is_split(
    run: WalSegmentRun,
    schema: Result<RawFrame, WalError>,
    frames: Seq<RawFrame>,
    failure: Option<WalError>,
) -> bool {
    &&& match frame::frame_at(run.schema_frame@, 0) {
        frame::FrameAt::Whole(f) => schema matches Ok(s) && s@ == f && s.wf(),
        _ => schema == Err::<RawFrame, WalError>(
            frame::buffer_error(run.schema_frame@, 0)->Some_0,
        ),
    }
    &&& frame::frame_views(frames) == frame::stream(run.frames@, 0)
    &&& frame::contiguous(frames, 0, frame::stream_end(run.frames@, 0))
    &&& failure == stream_failure(run.frames@)
}

impl DecodedRun {
    /// The decoded frames are those of `run`.
    pub open spec fn decodes(&self, run: WalSegmentRun) -> bool {
        is_split(
            run,
            match self.schema {
                Ok(s) => Ok(s.frame),
                Err(e) => Err(e),
            },
            frame::raw_frames(self.frames@),
            self.failure,
        )
    }
}

/// Splits one run of a range into frames.
pub fn split_run(run: &WalSegmentRun) -> (raw: RawRun)
    ensures
        is_split(*run, raw.schema, raw.frames@, raw.failure),
{
    let schema = RawFrame::read_bytes(run.schema_frame.as_slice(), 0);
    let scan = frame::scan_stream(run.frames.as_slice(), 0);
    let end: usize = scan.end as usize;
    proof {
        frame::lemma_stream_end(run.frames@, 0);
    }
    let failure = if end == run.frames.len() {
        None
    } else {
        match RawFrame::read_bytes(run.frames.as_slice(), end) {
            Ok(_) => None,
            Err(e) => Some(e),
        }
    };
    RawRun { schema, frames: scan.frames, failure }
}

/// The combined length of the buffers of `runs[..n]`.
pub open spec fn run_bytes(runs: Seq<range::RunView>, n: int) -> int
    decreases n,
{
    if n <= 0 {
        0
    } else {
        run_bytes(runs, n - 1) + runs[n - 1].schema_frame.len() + runs[n - 1].frames.len()
    }
}

/// Why a range is refused before any of its frames is looked at.
pub open spec fn head_error(
    r: RangeView,
    apply_from: u64,
    limits: WalRangeLimits,
) -> Option<WalError> {
    if !limits.positive() {
        Some(WalError::InvalidRangeLimits)
    } else if r.from_seq > apply_from {
        Some(
            WalError::UnresolvedHistory {
                seq: apply_from,
                reason: "range starts beyond the applied prefix",
            },
        )
    } else if r.next_seq < r.from_seq {
        Some(WalError::Format(FormatIssue::Text("reversed raw range interval")))
    } else if r.next_seq - r.from_seq > limits.max_records {
        Some(WalError::Format(FormatIssue::Text("raw range exceeds mutation limit")))
    } else if r.runs.len() > limits.max_control_frames {
        Some(WalError::Format(FormatIssue::Text("raw range exceeds control limit")))
    } else if run_bytes(r.runs, r.runs.len() as int) > limits.max_bytes {
        Some(WalError::Format(FormatIssue::Text("raw range exceeds byte limit")))
    } else {
        None
    }
}

proof fn lemma_run_bytes_monotone(runs: Seq<range::RunView>, a: int, b: int)
    requires
        0 <= a <= b,
    ensures
        0 <= run_bytes(runs, a) <= run_bytes(runs, b),
    decreases b,
{
    if a < b {
        lemma_run_bytes_monotone(runs, a, b - 1);
    } else if a > 0 {
        lemma_run_bytes_monotone(runs, a - 1, a - 1);
    }
}

/// Checks a range against the limits and the applied prefix. The total size is
/// checked before any frame is copied or decoded.
pub fn validate_head(range: &WalFrameRange, apply_from: u64, limits: WalRangeLimits) -> (r: Result<
    (),
    WalError,
>)
    ensures
        match head_error(range@, apply_from, limits) {
            Some(e) => r == Err::<(), WalError>(e),
            None => r is Ok,
        },
{
    if let Err(e) = limits.validate() {
        return Err(e);
    }
    if range.from_seq > apply_from {
        return Err(
            WalError::UnresolvedHistory {
                seq: apply_from,
                reason: "range starts beyond the applied prefix",
            },
        );
    }
    if range.next_seq < range.from_seq {
        return Err(WalError::Format(FormatIssue::Text("reversed raw range interval")));
    }
    if range.next_seq - range.from_seq > limits.max_records as u64 {
        return Err(WalError::Format(FormatIssue::Text("raw range exceeds mutation limit")));
    }
    if range.runs.len() > limits.max_control_frames {
        return Err(WalError::Format(FormatIssue::Text("raw range exceeds control limit")));
    }
    let mut bytes_left: usize = limits.max_bytes;
    let mut i: usize = 0;
    while i < range.runs.len()
        invariant
            i <= range.runs@.len(),
            limits.positive(),
            range.from_seq <= apply_from,
            range.from_seq <= range.next_seq,
            range.next_seq - range.from_seq <= limits.max_records,
            range.runs@.len() <= limits.max_control_frames,
            bytes_left == limits.max_bytes - run_bytes(range@.runs, i as int),
        decreases range.runs@.len() - i,
    {
        let run = &range.runs[i];
        proof {
            lemma_run_bytes_monotone(range@.runs, i + 1, range@.runs.len() as int);
            assert(range@.runs[i as int] == run@);
        }
        if run.schema_frame.len() > bytes_left || run.frames.len() > bytes_left
            - run.schema_frame.len() {
            return Err(WalError::Format(FormatIssue::Text("raw range exceeds byte limit")));
        }
        bytes_left = bytes_left - run.schema_frame.len() - run.frames.len();
        i = i + 1;
    }
    Ok(())
}

/// Splits an acceptable range into the frames that the host decodes.
pub fn split_range(range: &WalFrameRange, apply_from: u64, limits: WalRangeLimits) -> (r: Result<
    Vec<RawRun>,
    WalError,
>)
    ensures
        match head_error(range@, apply_from, limits) {
            Some(e) => r == Err::<Vec<RawRun>, WalError>(e),
            None => r matches Ok(runs) && runs@.len() == range.runs@.len() && forall|i: int|
                #![trigger runs@[i]]
                0 <= i < runs@.len() ==> is_split(
                    range.runs@[i],
                    runs@[i].schema,
                    runs@[i].frames@,
                    runs@[i].failure,
                ),
        },
{
    if let Err(e) = validate_head(range, apply_from, limits) {
        return Err(e);
    }
    let mut runs: Vec<RawRun> = Vec::new();
    let mut i: usize = 0;
    while i < range.runs.len()
        invariant
            i <= range.runs@.len(),
            head_error(range@, apply_from, limits) is None,
            runs@.len() == i,
            forall|j: int|
                #![trigger runs@[j]]
                0 <= j < i ==> is_split(
                    range.runs@[j],
                    runs@[j].schema,
                    runs@[j].frames@,
                    runs@[j].failure,
                ),
        decreases range.runs@.len() - i,
    {
        runs.push(split_run(&range.runs[i]));
        i = i + 1;
    }
    Ok(runs)
}

/// The fixed facts of one preflight.
pub struct PlanRequest {
    pub from_seq: u64,
    pub next_seq: u64,
    pub restored_view: u64,
    pub apply_from: u64,
    pub world: WorldShape,
    pub codecs: Codecs,
}

/// How far a preflight has come.
#[verifier::ext_equal]
pub struct PlanState {
    /// The sequence number that the next mutation must carry.
    pub expected_seq: u64,
    /// The fence: the highest view seen.
    pub max_view: u64,
    /// The tick that the world is at when the next record is applied.
    pub expected_tick: u64,
    pub controls_left: int,
    pub previous_start: Option<u64>,
    pub records: Seq<PlannedRecord>,
    pub remaps: Seq<Map<ComponentId, ApplyComponent>>,
}

/// Checks one mutation of a range, and plans it if it is not applied yet.
pub open spec fn plan_mutation(
    req: PlanRequest,
    st: PlanState,
    record: WalRecord,
    view: u64,
    source: usize,
    k: usize,
) -> Result<PlanState, WalError> {
    let raised = PlanState { max_view: views::max_u64(st.max_view, view), ..st };
    if record.seq != st.expected_seq || st.expected_seq >= req.next_seq {
        Err(
            WalError::UnresolvedHistory {
                seq: st.expected_seq,
                reason: "raw range mutation gap, duplicate, or out-of-bounds slot",
            },
        )
    } else if view < st.max_view || (record.seq >= req.apply_from && view < req.restored_view) {
        Err(
            WalError::UnresolvedHistory {
                seq: st.expected_seq,
                reason: "stale mutation has no durable terminal disposition",
            },
        )
    } else {
        match apply::unresolved_from(record.mutations@, 0, st.remaps.last(), req.codecs) {
            Some(e) => Err(e),
            None => {
                let passed = PlanState { expected_seq: (st.expected_seq + 1) as u64, ..raised };
                if record.seq < req.apply_from {
                    Ok(passed)
                } else {
                    match apply::tick_after_apply(record, st.expected_tick) {
                        Err(e) => Err(e),
                        Ok(tick) => Ok(
                            PlanState {
                                expected_tick: tick,
                                records: st.records.push(
                                    PlannedRecord {
                                        source,
                                        frame: k,
                                        remap: (st.remaps.len() - 1) as usize,
                                        seq: record.seq,
                                        tick_after: record.tick_after,
                                    },
                                ),
                                ..passed
                            },
                        ),
                    }
                }
            },
        }
    }
}

/// Checks a control frame against the control limit.
pub open spec fn plan_control(st: PlanState) -> Result<PlanState, WalError> {
    if st.controls_left <= 0 {
        Err(WalError::Format(FormatIssue::Text("raw range exceeds control limit")))
    } else {
        Ok(PlanState { controls_left: st.controls_left - 1, ..st })
    }
}

pub open spec fn plan_frame(
    req: PlanRequest,
    st: PlanState,
    f: DecodedFrame,
    source: usize,
    k: usize,
) -> Result<PlanState, WalError> {
    match f.spec_decode() {
        Err(e) => Err(e),
        Ok(entry) => {
            let view = f.frame.spec_stamp();
            match entry {
                WalEntry::Schema(_) => Err(
                    WalError::Format(FormatIssue::Text("schema inside raw range frame stream")),
                ),
                WalEntry::Checkpoint { .. } => plan_control(
                    PlanState { max_view: views::max_u64(st.max_view, view), ..st },
                ),
                WalEntry::Mutations(record) => plan_mutation(req, st, record, view, source, k),
            }
        },
    }
}

pub open spec fn plan_frames(
    req: PlanRequest,
    st: PlanState,
    run: DecodedRun,
    source: usize,
    k: int,
) -> Result<PlanState, WalError>
    decreases run.frames@.len() - k,
{
    if k < 0 || k >= run.frames@.len() {
        match run.failure {
            Some(e) => Err(e),
            None => Ok(st),
        }
    } else {
        match plan_frame(req, st, run.frames@[k], source, k as usize) {
            Err(e) => Err(e),
            Ok(next) => plan_frames(req, next, run, source, k + 1),
        }
    }
}

/// A run must start where the previous one left off; the first must not start
/// beyond the range.
pub open spec fn boundary_ok(req: PlanRequest, st: PlanState, start: u64) -> bool {
    match st.previous_start {
        None => start <= req.from_seq,
        Some(previous) => start > previous && start == st.expected_seq,
    }
}

/// Checks a run up to its schema, and binds that.
pub open spec fn plan_schema(
    req: PlanRequest,
    st: PlanState,
    run: WalSegmentRun,
    decoded: DecodedRun,
) -> Result<PlanState, WalError> {
    if !boundary_ok(req, st, run.segment_start_seq) {
        Err(WalError::Format(FormatIssue::Text("invalid raw range segment boundary")))
    } else {
        match plan_control(PlanState { previous_start: Some(run.segment_start_seq), ..st }) {
            Err(e) => Err(e),
            Ok(st1) => match decoded.schema {
                Err(e) => Err(e),
                Ok(f) => match f.spec_decode() {
                    Err(e) => Err(e),
                    Ok(WalEntry::Schema(schema)) => if f.frame.spec_end()
                        != run.schema_frame@.len() {
                        Err(
                            WalError::Format(
                                FormatIssue::Text("extra bytes after raw range schema"),
                            ),
                        )
                    } else {
                        match apply::apply_remap(
                            Some((schema.components@.len() as usize, f.binding)),
                            req.world,
                            req.codecs,
                        ) {
                            Err(e) => Err(e),
                            Ok(remap) => Ok(
                                PlanState {
                                    max_view: views::max_u64(st.max_view, f.frame.spec_stamp()),
                                    remaps: st.remaps.push(remap),
                                    ..st1
                                },
                            ),
                        }
                    },
                    Ok(_) => Err(
                        WalError::Format(FormatIssue::Text("raw range lacks a schema preamble")),
                    ),
                },
            },
        }
    }
}

pub open spec fn plan_runs(
    req: PlanRequest,
    st: PlanState,
    runs: Seq<WalSegmentRun>,
    decoded: Seq<DecodedRun>,
    i: int,
) -> Result<PlanState, WalError>
    decreases runs.len() - i,
{
    if i < 0 || i >= runs.len() {
        Ok(st)
    } else {
        match plan_schema(req, st, runs[i], decoded[i]) {
            Err(e) => Err(e),
            Ok(bound) => match plan_frames(req, bound, decoded[i], i as usize, 0) {
                Err(e) => Err(e),
                Ok(next) => plan_runs(req, next, runs, decoded, i + 1),
            },
        }
    }
}

pub open spec fn plan_start(range: WalFrameRange, limits: WalRangeLimits, tick: u64) -> PlanState {
    PlanState {
        expected_seq: range.from_seq,
        max_view: range.seed_view,
        expected_tick: tick,
        controls_left: limits.max_control_frames as int,
        previous_start: None,
        records: Seq::empty(),
        remaps: Seq::empty(),
    }
}

/// What preflighting `range` gives for a destination that has applied the log
/// up to `apply_from` under `restored_view`.
pub open spec fn range_plan(
    range: WalFrameRange,
    decoded: Seq<DecodedRun>,
    restored_view: u64,
    apply_from: u64,
    limits: WalRangeLimits,
    world: WorldShape,
    codecs: Codecs,
) -> Result<PlanView, WalError> {
    match head_error(range@, apply_from, limits) {
        Some(e) => Err(e),
        None => {
            let req = PlanRequest {
                from_seq: range.from_seq,
                next_seq: range.next_seq,
                restored_view,
                apply_from,
                world,
                codecs,
            };
            match plan_runs(req, plan_start(range, limits, world.tick), range.runs@, decoded, 0) {
                Err(e) => Err(e),
                Ok(st) => if st.expected_seq != range.next_seq {
                    Err(
                        WalError::UnresolvedHistory {
                            seq: st.expected_seq,
                            reason: "raw range is missing mutation slots",
                        },
                    )
                } else {
                    Ok(
                        PlanView {
                            records: st.records,
                            remaps: st.remaps,
                            last_seq: if range.next_seq > 0 {
                                (range.next_seq - 1) as u64
                            } else {
                                0
                            },
                            max_view: views::max_u64(st.max_view, restored_view),
                            checked: true,
                        },
                    )
                },
            }
        },
    }
}

/// A preflight in progress.
struct Planner<'a> {
    from_seq: u64,
    next_seq: u64,
    restored_view: u64,
    apply_from: u64,
    world: &'a WorldShape,
    codecs: &'a Codecs,
    expected_seq: u64,
    max_view: u64,
    expected_tick: u64,
    controls_left: usize,
    previous_start: Option<u64>,
    records: Vec<PlannedRecord>,
    remaps: Vec<ApplyRemap>,
}

impl<'a> Planner<'a> {
    spec fn req(&self) -> PlanRequest {
        PlanRequest {
            from_seq: self.from_seq,
            next_seq: self.next_seq,
            restored_view: self.restored_view,
            apply_from: self.apply_from,
            world: *self.world,
            codecs: *self.codecs,
        }
    }

    spec fn st(&self) -> PlanState {
        PlanState {
            expected_seq: self.expected_seq,
            max_view: self.max_view,
            expected_tick: self.expected_tick,
            controls_left: self.controls_left as int,
            previous_start: self.previous_start,
            records: self.records@,
            remaps: remap_views(self.remaps@),
        }
    }

    spec fn result_is(&self, old_req: PlanRequest, r: Result<(), WalError>, want: Result<
        PlanState,
        WalError,
    >) -> bool {
        &&& self.req() == old_req
        &&& match want {
            Ok(st) => r is Ok && self.st() == st,
            Err(e) => r == Err::<(), WalError>(e),
        }
    }

    fn control(&mut self) -> (r: Result<(), WalError>)
        ensures
            final(self).result_is(old(self).req(), r, plan_control(old(self).st())),
            final(self).remaps@ == old(self).remaps@,
    {
        if self.controls_left == 0 {
            return Err(WalError::Format(FormatIssue::Text("raw range exceeds control limit")));
        }
        self.controls_left = self.controls_left - 1;
        Ok(())
    }

    fn mutation(&mut self, record: &WalRecord, view: u64, source: usize, k: usize) -> (r: Result<
        (),
        WalError,
    >)
        requires
            old(self).remaps@.len() > 0,
        ensures
            final(self).result_is(
                old(self).req(),
                r,
                plan_mutation(old(self).req(), old(self).st(), *record, view, source, k),
            ),
            final(self).remaps@.len() == old(self).remaps@.len(),
    {
        let stale = views::observe_view(&mut self.max_view, view);
        if record.seq != self.expected_seq || self.expected_seq >= self.next_seq {
            return Err(
                WalError::UnresolvedHistory {
                    seq: self.expected_seq,
                    reason: "raw range mutation gap, duplicate, or out-of-bounds slot",
                },
            );
        }
        if stale || (record.seq >= self.apply_from && view < self.restored_view) {
            return Err(
                WalError::UnresolvedHistory {
                    seq: self.expected_seq,
                    reason: "stale mutation has no durable terminal disposition",
                },
            );
        }
        let remap: usize = self.remaps.len() - 1;
        if let Err(e) = validate_record_components(record, &self.remaps[remap], self.codecs) {
            return Err(e);
        }
        if record.seq >= self.apply_from {
            match validate_record_tick(record, self.expected_tick) {
                Err(e) => {
                    return Err(e);
                },
                Ok(tick) => {
                    self.expected_tick = tick;
                },
            }
            self.records.push(
                PlannedRecord {
                    source,
                    frame: k,
                    remap,
                    seq: record.seq,
                    tick_after: record.tick_after,
                },
            );
        }
        self.expected_seq = self.expected_seq + 1;
        Ok(())
    }

    fn one_frame(&mut self, f: &DecodedFrame, source: usize, k: usize) -> (r: Result<(), WalError>)
        requires
            old(self).remaps@.len() > 0,
        ensures
            final(self).result_is(
                old(self).req(),
                r,
                plan_frame(old(self).req(), old(self).st(), *f, source, k),
            ),
            final(self).remaps@.len() == old(self).remaps@.len(),
    {
        match f.decode() {
            Err(e) => Err(e),
            Ok((entry, _, view)) => match entry {
                WalEntry::Schema(_) => Err(
                    WalError::Format(FormatIssue::Text("schema inside raw range frame stream")),
                ),
                WalEntry::Checkpoint { .. } => {
                    let _ = views::observe_view(&mut self.max_view, view);
                    self.control()
                },
                WalEntry::Mutations(record) => self.mutation(record, view, source, k),
            },
        }
    }

    fn run_frames(&mut self, run: &DecodedRun, source: usize) -> (r: Result<(), WalError>)
        requires
            old(self).remaps@.len() > 0,
        ensures
            final(self).result_is(
                old(self).req(),
                r,
                plan_frames(old(self).req(), old(self).st(), *run, source, 0),
            ),
    {
        let mut k: usize = 0;
        while k < run.frames.len()
            invariant
                k <= run.frames@.len(),
                self.remaps@.len() > 0,
                self.req() == old(self).req(),
                plan_frames(old(self).req(), old(self).st(), *run, source, 0) == plan_frames(
                    self.req(),
                    self.st(),
                    *run,
                    source,
                    k as int,
                ),
            decreases run.frames@.len() - k,
        {
            if let Err(e) = self.one_frame(&run.frames[k], source, k) {
                return Err(e);
            }
            k = k + 1;
        }
        match &run.failure {
            Some(e) => Err(e.duplicate()),
            None => Ok(()),
        }
    }

    fn run_schema(&mut self, run: &WalSegmentRun, decoded: &DecodedRun) -> (r: Result<
        (),
        WalError,
    >)
        requires
            decoded.decodes(*run),
        ensures
            final(self).result_is(
                old(self).req(),
                r,
                plan_schema(old(self).req(), old(self).st(), *run, *decoded),
            ),
            r is Ok ==> final(self).remaps@.len() > 0,
    {
        let start: u64 = run.segment_start_seq;
        let in_place = match self.previous_start {
            None => start <= self.from_seq,
            Some(previous) => start > previous && start == self.expected_seq,
        };
        if !in_place {
            return Err(
                WalError::Format(FormatIssue::Text("invalid raw range segment boundary")),
            );
        }
        self.previous_start = Some(start);
        if let Err(e) = self.control() {
            return Err(e);
        }
        let f = match &decoded.schema {
            Err(e) => {
                return Err(e.duplicate());
            },
            Ok(f) => f,
        };
        match f.decode() {
            Err(e) => Err(e),
            Ok((entry, _, view)) => match entry {
                WalEntry::Schema(schema) => {
                    if f.frame.next_offset() != run.schema_frame.len() as u64 {
                        return Err(
                            WalError::Format(
                                FormatIssue::Text("extra bytes after raw range schema"),
                            ),
                        );
                    }
                    let _ = views::observe_view(&mut self.max_view, view);
                    match build_apply_remap(
                        Some((schema.components.len(), &f.binding)),
                        self.world,
                        self.codecs,
                    ) {
                        Err(e) => Err(e),
                        Ok(remap) => {
                            let ghost before = self.remaps@;
                            self.remaps.push(remap);
                            assert(remap_views(self.remaps@) =~= remap_views(before).push(
                                remap@,
                            ));
                            Ok(())
                        },
                    }
                },
                _ => Err(
                    WalError::Format(FormatIssue::Text("raw range lacks a schema preamble")),
                ),
            },
        }
    }
}

impl ValidatedRange {
    /// Preflights one complete raw range for a destination that has applied
    /// nothing of it.
    pub fn from_frames(
        range: &WalFrameRange,
        decoded: &Vec<DecodedRun>,
        restored_view: u64,
        limits: WalRangeLimits,
        world: &WorldShape,
        codecs: &Codecs,
    ) -> (r: Result<ValidatedRange, WalError>)
        requires
            head_error(range@, range.from_seq, limits) is None ==> decodes_range(*range, decoded@),
        ensures
            match range_plan(
                *range,
                decoded@,
                restored_view,
                range.from_seq,
                limits,
                *world,
                *codecs,
            ) {
                Ok(plan) => r matches Ok(p) && p@ == plan,
                Err(e) => r == Err::<ValidatedRange, WalError>(e),
            },
            r matches Ok(p) ==> p.checked,
    {
        Self::from_frames_after(
            range,
            decoded,
            restored_view,
            range.from_seq,
            limits,
            world,
            codecs,
        )
    }

    /// Preflights one complete raw range for a destination that has applied
    /// the log up to `apply_from` under `restored_view`. The source prefix is
    /// validated on its own: a restored later fence does not reject duplicates
    /// that are already applied. Nothing is planned unless all of it is valid.
    pub fn from_frames_after(
        range: &WalFrameRange,
        decoded: &Vec<DecodedRun>,
        restored_view: u64,
        apply_from: u64,
        limits: WalRangeLimits,
        world: &WorldShape,
        codecs: &Codecs,
    ) -> (r: Result<ValidatedRange, WalError>)
        requires
            head_error(range@, apply_from, limits) is None ==> decodes_range(*range, decoded@),
        ensures
            match range_plan(
                *range,
                decoded@,
                restored_view,
                apply_from,
                limits,
                *world,
                *codecs,
            ) {
                Ok(plan) => r matches Ok(p) && p@ == plan,
                Err(e) => r == Err::<ValidatedRange, WalError>(e),
            },
            r matches Ok(p) ==> p.checked,
    {
        if let Err(e) = validate_head(range, apply_from, limits) {
            return Err(e);
        }
        let mut planner = Planner {
            from_seq: range.from_seq,
            next_seq: range.next_seq,
            restored_view,
            apply_from,
            world,
            codecs,
            expected_seq: range.from_seq,
            max_view: range.seed_view,
            expected_tick: world.tick,
            controls_left: limits.max_control_frames,
            previous_start: None,
            records: Vec::new(),
            remaps: Vec::new(),
        };
        assert(remap_views(planner.remaps@) =~= Seq::empty());
        let ghost req = planner.req();
        let ghost start = planner.st();
        let mut i: usize = 0;
        while i < range.runs.len()
            invariant
                i <= range.runs@.len(),
                decodes_range(*range, decoded@),
                planner.req() == req,
                planner.next_seq == range.next_seq,
                head_error(range@, apply_from, limits) is None,
                start == plan_start(*range, limits, world.tick),
                req == (PlanRequest {
                    from_seq: range.from_seq,
                    next_seq: range.next_seq,
                    restored_view,
                    apply_from,
                    world: *world,
                    codecs: *codecs,
                }),
                plan_runs(req, start, range.runs@, decoded@, 0) == plan_runs(
                    req,
                    planner.st(),
                    range.runs@,
                    decoded@,
                    i as int,
                ),
            decreases range.runs@.len() - i,
        {
            if let Err(e) = planner.run_schema(&range.runs[i], &decoded[i]) {
                return Err(e);
            }
            if let Err(e) = planner.run_frames(&decoded[i], i) {
                return Err(e);
            }
            i = i + 1;
        }
        if planner.expected_seq != range.next_seq {
            return Err(
                WalError::UnresolvedHistory {
                    seq: planner.expected_seq,
                    reason: "raw range is missing mutation slots",
                },
            );
        }
        let mut max_view: u64 = planner.max_view;
        let _ = views::observe_view(&mut max_view, restored_view);
        Ok(
            ValidatedRange {
                records: planner.records,
                remaps: planner.remaps,
                last_seq: if range.next_seq > 0 {
                    range.next_seq - 1
                } else {
                    0
                },
                max_view,
                checked: true,
            },
        )
    }

    /// The highest view that the plan leaves behind.
    pub fn view_after(&self) -> (view: u64)
        ensures
            view == self@.max_view,
    {
        self.max_view
    }
}

/// The decoded runs are those of `range`.
pub open spec fn decodes_range(range: WalFrameRange, decoded: Seq<DecodedRun>) -> bool {
    &&& decoded.len() == range.runs@.len()
    &&& forall|i: int|
        #![trigger decoded[i]]
        0 <= i < decoded.len() ==> decoded[i].decodes(range.runs@[i])
}

/// How far a directory preflight has come.
#[verifier::ext_equal]
pub struct ReplayState {
    pub records: Seq<PlannedRecord>,
    pub remaps: Seq<Map<ComponentId, ApplyComponent>>,
    /// The current segment's records use the last of `remaps`.
    pub bound: bool,
    pub last_seq: u64,
    pub max_view: u64,
    pub expected_tick: u64,
}

/// Plans one record of a segment. Without a schema before it, codec ids stand
/// for source ids.
pub open spec fn replay_record(
    st: ReplayState,
    record: WalRecord,
    world: WorldShape,
    codecs: Codecs,
    source: usize,
    k: usize,
) -> Result<ReplayState, WalError> {
    match apply::tick_after_apply(record, st.expected_tick) {
        Err(e) => Err(e),
        Ok(tick) => {
            let bound = if st.bound {
                Ok(st.remaps)
            } else {
                match apply::apply_remap(None, world, codecs) {
                    Err(e) => Err(e),
                    Ok(remap) => Ok(st.remaps.push(remap)),
                }
            };
            match bound {
                Err(e) => Err(e),
                Ok(remaps) => match apply::unresolved_from(
                    record.mutations@,
                    0,
                    remaps.last(),
                    codecs,
                ) {
                    Some(e) => Err(e),
                    None => Ok(
                        ReplayState {
                            records: st.records.push(
                                PlannedRecord {
                                    source,
                                    frame: k,
                                    remap: (remaps.len() - 1) as usize,
                                    seq: record.seq,
                                    tick_after: record.tick_after,
                                },
                            ),
                            remaps,
                            bound: true,
                            last_seq: record.seq,
                            expected_tick: tick,
                            ..st
                        },
                    ),
                },
            }
        },
    }
}

/// Plans one frame of a segment. Stale mutations and those before `from_seq`
/// are passed over; a stale schema still binds the mutations of its segment.
pub open spec fn replay_frame(
    st: ReplayState,
    f: DecodedFrame,
    from_seq: u64,
    world: WorldShape,
    codecs: Codecs,
    source: usize,
    k: usize,
) -> Result<ReplayState, WalError> {
    match f.spec_decode() {
        Err(e) => Err(e),
        Ok(entry) => {
            let view = f.frame.spec_stamp();
            let raised = ReplayState { max_view: views::max_u64(st.max_view, view), ..st };
            match entry {
                WalEntry::Schema(schema) => match apply::apply_remap(
                    Some((schema.components@.len() as usize, f.binding)),
                    world,
                    codecs,
                ) {
                    Err(e) => Err(e),
                    Ok(remap) => Ok(
                        ReplayState { remaps: st.remaps.push(remap), bound: true, ..raised },
                    ),
                },
                WalEntry::Mutations(record) => if view < st.max_view || record.seq < from_seq {
                    Ok(raised)
                } else {
                    replay_record(raised, record, world, codecs, source, k)
                },
                WalEntry::Checkpoint { .. } => Ok(raised),
            }
        },
    }
}

pub open spec fn replay_frames(
    st: ReplayState,
    segment: SegmentImage,
    from_seq: u64,
    world: WorldShape,
    codecs: Codecs,
    source: usize,
    k: int,
) -> Result<ReplayState, WalError>
    decreases segment.frames@.len() - k,
{
    if k < 0 || k >= segment.frames@.len() {
        match recovery::tail_error(segment) {
            Some(e) => Err(e),
            None => Ok(st),
        }
    } else {
        match replay_frame(st, segment.frames@[k], from_seq, world, codecs, source, k as usize) {
            Err(e) => Err(e),
            Ok(next) => replay_frames(next, segment, from_seq, world, codecs, source, k + 1),
        }
    }
}

pub open spec fn replay_segments(
    st: ReplayState,
    segments: Seq<SegmentImage>,
    from_seq: u64,
    world: WorldShape,
    codecs: Codecs,
    i: int,
) -> Result<ReplayState, WalError>
    decreases segments.len() - i,
{
    if i < 0 || i >= segments.len() {
        Ok(st)
    } else {
        match segments[i].spec_magic_error() {
            Some(e) => Err(e),
            None => match replay_frames(
                ReplayState { bound: false, ..st },
                segments[i],
                from_seq,
                world,
                codecs,
                i as usize,
                0,
            ) {
                Err(e) => Err(e),
                Ok(next) => replay_segments(next, segments, from_seq, world, codecs, i + 1),
            },
        }
    }
}

/// What preflighting a log directory from `from_seq` on gives.
pub open spec fn replay_plan(
    segments: Seq<SegmentImage>,
    from_seq: u64,
    world: WorldShape,
    codecs: Codecs,
) -> Result<PlanView, WalError> {
    let start = ReplayState {
        records: Seq::empty(),
        remaps: Seq::empty(),
        bound: false,
        last_seq: if from_seq > 0 {
            (from_seq - 1) as u64
        } else {
            0
        },
        max_view: 0,
        expected_tick: world.tick,
    };
    match replay_segments(start, segments, from_seq, world, codecs, 0) {
        Err(e) => Err(e),
        Ok(st) => Ok(
            PlanView {
                records: st.records,
                remaps: st.remaps,
                last_seq: st.last_seq,
                max_view: st.max_view,
                checked: false,
            },
        ),
    }
}

/// A directory preflight in progress.
struct Replayer<'a> {
    from_seq: u64,
    world: &'a WorldShape,
    codecs: &'a Codecs,
    records: Vec<PlannedRecord>,
    remaps: Vec<ApplyRemap>,
    bound: bool,
    last_seq: u64,
    max_view: u64,
    expected_tick: u64,
}

impl<'a> Replayer<'a> {
    spec fn st(&self) -> ReplayState {
        ReplayState {
            records: self.records@,
            remaps: remap_views(self.remaps@),
            bound: self.bound,
            last_seq: self.last_seq,
            max_view: self.max_view,
            expected_tick: self.expected_tick,
        }
    }

    spec fn inv(&self) -> bool {
        self.bound ==> self.remaps@.len() > 0
    }

    spec fn result_is(&self, before: Replayer, r: Result<(), WalError>, want: Result<
        ReplayState,
        WalError,
    >) -> bool {
        &&& self.from_seq == before.from_seq
        &&& *self.world == *before.world
        &&& *self.codecs == *before.codecs
        &&& match want {
            Ok(st) => r is Ok && self.inv() && self.st() == st,
            Err(e) => r == Err::<(), WalError>(e),
        }
    }

    fn push_remap(&mut self, remap: ApplyRemap)
        ensures
            final(self).st() == (ReplayState {
                remaps: old(self).st().remaps.push(remap@),
                bound: true,
                ..old(self).st()
            }),
            final(self).inv(),
            final(self).from_seq == old(self).from_seq,
            *final(self).world == *old(self).world,
            *final(self).codecs == *old(self).codecs,
    {
        let ghost before = self.remaps@;
        self.remaps.push(remap);
        self.bound = true;
        assert(remap_views(self.remaps@) =~= remap_views(before).push(remap@));
    }

    fn one_record(&mut self, record: &WalRecord, source: usize, k: usize) -> (r: Result<
        (),
        WalError,
    >)
        requires
            old(self).inv(),
        ensures
            final(self).result_is(
                *old(self),
                r,
                replay_record(
                    old(self).st(),
                    *record,
                    *old(self).world,
                    *old(self).codecs,
                    source,
                    k,
                ),
            ),
    {
        let tick: u64 = match validate_record_tick(record, self.expected_tick) {
            Err(e) => {
                return Err(e);
            },
            Ok(tick) => tick,
        };
        if !self.bound {
            match build_apply_remap(None, self.world, self.codecs) {
                Err(e) => {
                    return Err(e);
                },
                Ok(remap) => {
                    self.push_remap(remap);
                },
            }
        }
        let remap: usize = self.remaps.len() - 1;
        if let Err(e) = validate_record_components(record, &self.remaps[remap], self.codecs) {
            return Err(e);
        }
        self.expected_tick = tick;
        self.last_seq = record.seq;
        self.records.push(
            PlannedRecord {
                source,
                frame: k,
                remap,
                seq: record.seq,
                tick_after: record.tick_after,
            },
        );
        Ok(())
    }

    fn one_frame(&mut self, f: &DecodedFrame, source: usize, k: usize) -> (r: Result<(), WalError>)
        requires
            old(self).inv(),
        ensures
            final(self).result_is(
                *old(self),
                r,
                replay_frame(
                    old(self).st(),
                    *f,
                    old(self).from_seq,
                    *old(self).world,
                    *old(self).codecs,
                    source,
                    k,
                ),
            ),
    {
        match f.decode() {
            Err(e) => Err(e),
            Ok((entry, _, view)) => {
                let stale = views::observe_view(&mut self.max_view, view);
                match entry {
                    WalEntry::Schema(schema) => match build_apply_remap(
                        Some((schema.components.len(), &f.binding)),
                        self.world,
                        self.codecs,
                    ) {
                        Err(e) => Err(e),
                        Ok(remap) => {
                            self.push_remap(remap);
                            Ok(())
                        },
                    },
                    WalEntry::Mutations(record) => {
                        if stale || record.seq < self.from_seq {
                            Ok(())
                        } else {
                            self.one_record(record, source, k)
                        }
                    },
                    WalEntry::Checkpoint { .. } => Ok(()),
                }
            },
        }
    }

    fn one_segment(&mut self, segment: &SegmentImage, source: usize) -> (r: Result<(), WalError>)
        requires
            old(self).inv(),
        ensures
            final(self).result_is(
                *old(self),
                r,
                match segment.spec_magic_error() {
                    Some(e) => Err(e),
                    None => replay_frames(
                        ReplayState { bound: false, ..old(self).st() },
                        *segment,
                        old(self).from_seq,
                        *old(self).world,
                        *old(self).codecs,
                        source,
                        0,
                    ),
                },
            ),
    {
        if let Err(e) = segment.validate_segment_magic() {
            return Err(e);
        }
        self.bound = false;
        let ghost start = self.st();
        let mut k: usize = 0;
        while k < segment.frames.len()
            invariant
                k <= segment.frames@.len(),
                self.inv(),
                self.from_seq == old(self).from_seq,
                *self.world == *old(self).world,
                *self.codecs == *old(self).codecs,
                segment.spec_magic_error() is None,
                start == (ReplayState { bound: false, ..old(self).st() }),
                replay_frames(
                    start,
                    *segment,
                    self.from_seq,
                    *self.world,
                    *self.codecs,
                    source,
                    0,
                ) == replay_frames(
                    self.st(),
                    *segment,
                    self.from_seq,
                    *self.world,
                    *self.codecs,
                    source,
                    k as int,
                ),
            decreases segment.frames@.len() - k,
        {
            if let Err(e) = self.one_frame(&segment.frames[k], source, k) {
                return Err(e);
            }
            k = k + 1;
        }
        match segment.meta.tail {
            StreamTail::TooLarge { len } => Err(
                WalError::Format(
                    FormatIssue::FrameTooLarge { offset: segment.meta.end, len: len as u64 },
                ),
            ),
            _ => Ok(()),
        }
    }
}

/// The first failure among `outcomes[i..n]`.
pub open spec fn failed_outcome(outcomes: Seq<Result<(), WalError>>, i: int, n: int) -> Option<
    WalError,
>
    decreases n - i,
{
    if i < 0 || i >= n || i >= outcomes.len() {
        None
    } else {
        match outcomes[i] {
            Err(e) => Some(e),
            Ok(_) => failed_outcome(outcomes, i + 1, n),
        }
    }
}

impl PlanView {
    /// What carrying out the plan's records from the `i`-th on does to a
    /// follower, when the applications go as `outcomes`.
    pub open spec fn followed(
        self,
        follower: FollowerView,
        outcomes: Seq<Result<(), WalError>>,
        i: int,
    ) -> (FollowerView, Result<u64, FollowerError>)
        decreases self.records.len() - i,
    {
        if i < 0 || i >= self.records.len() {
            (follower, Ok(self.max_view))
        } else {
            let (next, r) = follower.next(self.records[i].seq, outcomes[i]);
            match r {
                Err(e) => (next, Err(e)),
                Ok(_) => self.followed(next, outcomes, i + 1),
            }
        }
    }
}

impl ValidatedRange {
    /// Preflights the records of a log directory from `from_seq` on, over its
    /// segment files ascending. A frame cut short ends its segment; a corrupt
    /// one refuses the directory.
    pub fn read(
        segments: &Vec<SegmentImage>,
        from_seq: u64,
        world: &WorldShape,
        codecs: &Codecs,
    ) -> (r: Result<ValidatedRange, WalError>)
        ensures
            match replay_plan(segments@, from_seq, *world, *codecs) {
                Ok(plan) => r matches Ok(p) && p@ == plan,
                Err(e) => r == Err::<ValidatedRange, WalError>(e),
            },
            r matches Ok(p) ==> !p.checked,
    {
        let mut replayer = Replayer {
            from_seq,
            world,
            codecs,
            records: Vec::new(),
            remaps: Vec::new(),
            bound: false,
            last_seq: if from_seq > 0 {
                from_seq - 1
            } else {
                0
            },
            max_view: 0,
            expected_tick: world.tick,
        };
        assert(remap_views(replayer.remaps@) =~= Seq::empty());
        let ghost start = replayer.st();
        let mut i: usize = 0;
        while i < segments.len()
            invariant
                i <= segments@.len(),
                replayer.inv(),
                replayer.from_seq == from_seq,
                *replayer.world == *world,
                *replayer.codecs == *codecs,
                start.records == Seq::<PlannedRecord>::empty(),
                replay_plan(segments@, from_seq, *world, *codecs) == match replay_segments(
                    start,
                    segments@,
                    from_seq,
                    *world,
                    *codecs,
                    0,
                ) {
                    Err(e) => Err::<PlanView, WalError>(e),
                    Ok(st) => Ok(
                        PlanView {
                            records: st.records,
                            remaps: st.remaps,
                            last_seq: st.last_seq,
                            max_view: st.max_view,
                            checked: false,
                        },
                    ),
                },
                replay_segments(start, segments@, from_seq, *world, *codecs, 0)
                    == replay_segments(
                    replayer.st(),
                    segments@,
                    from_seq,
                    *world,
                    *codecs,
                    i as int,
                ),
            decreases segments@.len() - i,
        {
            if let Err(e) = replayer.one_segment(&segments[i], i) {
                return Err(e);
            }
            i = i + 1;
        }
        Ok(
            ValidatedRange {
                records: replayer.records,
                remaps: replayer.remaps,
                last_seq: replayer.last_seq,
                max_view: replayer.max_view,
                checked: false,
            },
        )
    }

    /// Accounts for carrying out the plan: `outcomes` are the outcomes of
    /// applying its records in order, up to the first failure. Returns the last
    /// sequence and the highest view of the plan.
    pub fn execute(self, outcomes: &Vec<Result<(), WalError>>) -> (r: Result<(u64, u64), WalError>)
        requires
            replication::outcomes_cover(outcomes@, self@.records.len() as int),
        ensures
            r == match failed_outcome(outcomes@, 0, self@.records.len() as int) {
                Some(e) => Err(e),
                None => Ok((self@.last_seq, self@.max_view)),
            },
    {
        let n: usize = self.records.len();
        let mut i: usize = 0;
        while i < n && i < outcomes.len()
            invariant
                n == self.records@.len(),
                i <= n,
                i <= outcomes@.len(),
                failed_outcome(outcomes@, 0, n as int) == failed_outcome(
                    outcomes@,
                    i as int,
                    n as int,
                ),
            decreases n - i,
        {
            if let Err(e) = &outcomes[i] {
                return Err(e.duplicate());
            }
            i = i + 1;
        }
        Ok((self.last_seq, self.max_view))
    }

    /// Accounts for carrying out the plan on a follower's world. Returns the
    /// highest view of the plan.
    pub fn execute_following(
        self,
        follower: &mut Follower,
        outcomes: &Vec<Result<(), WalError>>,
    ) -> (r: Result<u64, FollowerError>)
        requires
            forall|i: int|
                0 <= i < self@.records.len() && replication::succeeded(outcomes@, i + 1)
                    && !old(follower)@.poisoned ==> (#[trigger] self@.records[i]).seq < u64::MAX,
            replication::outcomes_cover(outcomes@, self@.records.len() as int),
        ensures
            (final(follower)@, r) == self@.followed(old(follower)@, outcomes@, 0),
    {
        let n: usize = self.records.len();
        let mut i: usize = 0;
        while i < n
            invariant
                n == self.records@.len(),
                i <= n,
                i <= outcomes@.len(),
                forall|i: int|
                    0 <= i < self@.records.len() && replication::succeeded(outcomes@, i + 1)
                        && !old(follower)@.poisoned ==> (#[trigger] self@.records[i]).seq
                        < u64::MAX,
                i == 0 ==> follower@ == old(follower)@,
                i > 0 ==> !old(follower)@.poisoned,
                replication::outcomes_cover(outcomes@, n as int),
                forall|k: int| 0 <= k < i ==> #[trigger] outcomes@[k] is Ok,
                self@.followed(old(follower)@, outcomes@, 0) == self@.followed(
                    follower@,
                    outcomes@,
                    i as int,
                ),
            decreases n - i,
        {
            assert(i < outcomes@.len()) by {
                if i == outcomes@.len() {
                    assert(outcomes@[outcomes@.len() - 1] is Ok);
                }
            }
            assert(outcomes@[i as int] is Ok && !old(follower)@.poisoned ==> self@.records[i as int].seq
                < u64::MAX) by {
                if outcomes@[i as int] is Ok {
                    assert(replication::succeeded(outcomes@, i + 1));
                }
            }
            let seq: u64 = self.records[i].seq;
            let outcome = match &outcomes[i] {
                Ok(_) => Ok(()),
                Err(e) => Err(e.duplicate()),
            };
            if let Err(e) = follower.apply_next(seq, outcome) {
                return Err(e);
            }
            i = i + 1;
        }
        Ok(self.max_view)
    }
}

impl Wal {
    /// Plans the replay of all records across all segments into a world.
    pub fn replay(&self, segments: &Vec<SegmentImage>, world: &WorldShape, codecs: &Codecs) -> (r:
        Result<ValidatedRange, WalError>)
        ensures
            match replay_plan(segments@, 0, *world, *codecs) {
                Ok(plan) => r matches Ok(p) && p@ == plan,
                Err(e) => r == Err::<ValidatedRange, WalError>(e),
            },
            r matches Ok(p) ==> !p.checked,
    {
        self.replay_from(0, segments, world, codecs)
    }

    /// Plans the replay of the records from `from_seq` on, across all segments
    /// ascending. All of them and all component references are checked before
    /// the world changes; carrying the plan out keeps each record's tick and
    /// mutation order. After a failure the world should be discarded.
    pub fn replay_from(
        &self,
        from_seq: u64,
        segments: &Vec<SegmentImage>,
        world: &WorldShape,
        codecs: &Codecs,
    ) -> (r: Result<ValidatedRange, WalError>)
        ensures
            match replay_plan(segments@, from_seq, *world, *codecs) {
                Ok(plan) => r matches Ok(p) && p@ == plan,
                Err(e) => r == Err::<ValidatedRange, WalError>(e),
            },
            r matches Ok(p) ==> !p.checked,
    {
        ValidatedRange::read(segments, from_seq, world, codecs)
    }
}

} // verus!
