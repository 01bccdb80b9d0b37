//! Bounded, contiguous range reads of the synchronized log.
use crate::error::{FormatIssue, IoError, WalError};
use crate::frame;
use crate::frame::{DecodedFrame, StreamTail};
use crate::record::WalEntry;
use crate::segment;
use crate::segment::{SegmentImage, SegmentMagic};
use crate::views;
use crate::wal::{Wal, WalView};
use vstd::prelude::*;

verus! {

/// Independent bounds on one raw response. Every limit must be positive.
#[derive(Clone, Copy, Debug, PartialEq, Eq)]
pub struct WalRangeLimits {
    /// Maximum mutation slots in the exclusive sequence interval.
    pub max_records: usize,
    /// Maximum returned frame bytes, including schema headers and payloads.
    pub max_bytes: usize,
    /// Maximum returned schema and checkpoint frames combined.
    pub max_control_frames: usize,
}

impl WalRangeLimits {
    pub open spec fn positive(self) -> bool {
        self.max_records > 0 && self.max_bytes > 0 && self.max_control_frames > 0
    }

    /// Refuses a limit of zero.
    pub fn validate(self) -> (r: Result<(), WalError>)
        ensures
            r == if self.positive() {
                Ok::<(), WalError>(())
            } else {
                Err(WalError::InvalidRangeLimits)
            },
    {
        if self.max_records == 0 || self.max_bytes == 0 || self.max_control_frames == 0 {
            return Err(WalError::InvalidRangeLimits);
        }
        Ok(())
    }
}

/// Detached original frames covering exactly `[from_seq, next_seq)`.
/// This is a local read result, not a transport envelope or an application ack.
#[derive(Clone, Debug, PartialEq, Eq)]
pub struct WalFrameRange {
    pub from_seq: u64,
    pub next_seq: u64,
    /// Maximum durable view before the first returned mutation. For an empty
    /// tail response, covers all durable controls at that position too.
    pub seed_view: u64,
    pub runs: Vec<WalSegmentRun>,
}

/// One segment's exact schema frame followed by original mutation/checkpoint
/// frames in source order. Buffers hold frame headers, but no segment magic.
#[derive(Clone, Debug, PartialEq, Eq)]
pub struct WalSegmentRun {
    pub segment_start_seq: u64,
    pub schema_frame: Vec<u8>,
    pub frames: Vec<u8>,
}

#[verifier::ext_equal]
pub struct RunView {
    pub segment_start_seq: u64,
    pub schema_frame: Seq<u8>,
    pub frames: Seq<u8>,
}

#[verifier::ext_equal]
pub struct RangeView {
    pub from_seq: u64,
    pub next_seq: u64,
    pub seed_view: u64,
    pub runs: Seq<RunView>,
}

impl View for WalSegmentRun {
    type V = RunView;

    open spec fn view(&self) -> RunView {
        RunView {
            segment_start_seq: self.segment_start_seq,
            schema_frame: self.schema_frame@,
            frames: self.frames@,
        }
    }
}

pub open spec fn run_views(runs: Seq<WalSegmentRun>) -> Seq<RunView> {
    Seq::new(runs.len(), |i: int| runs[i]@)
}

impl View for WalFrameRange {
    type V = RangeView;

    open spec fn view(&self) -> RangeView {
        RangeView {
            from_seq: self.from_seq,
            next_seq: self.next_seq,
            seed_view: self.seed_view,
            runs: run_views(self.runs@),
        }
    }
}

/// The fixed facts of one read.
pub struct ReadRequest {
    pub from_seq: u64,
    /// Where the read stops, at the latest.
    pub end_seq: u64,
    pub durable_next_seq: u64,
    pub active_start_seq: u64,
}

/// How far a read has come.
#[verifier::ext_equal]
pub struct ReadState {
    /// The sequence number that the next mutation must carry.
    pub expected_seq: u64,
    /// The fence: the highest view seen.
    pub max_view: u64,
    pub range: RangeView,
    pub bytes_left: int,
    pub controls_left: int,
    /// The current segment's schema has been seen.
    pub has_schema: bool,
    /// The current segment has a run in the range.
    pub run_started: bool,
}

pub enum ReadStep {
    Next(ReadState),
    Done(RangeView),
    Fail(WalError),
}

/// A frame's original bytes.
pub open spec fn frame_raw(f: DecodedFrame) -> Seq<u8> {
    f.frame@.header + f.frame@.payload
}

/// The runs of a range with frame `k` of `image` added.
pub open spec fn runs_with(st: ReadState, image: SegmentImage, k: int) -> Seq<RunView> {
    let runs = st.range.runs;
    let raw = frame_raw(image.frames@[k]);
    if st.run_started {
        let last = runs.last();
        runs.drop_last().push(RunView { frames: last.frames + raw, ..last })
    } else {
        runs.push(
            RunView {
                segment_start_seq: image.start_seq,
                schema_frame: frame_raw(image.frames@[0]),
                frames: raw,
            },
        )
    }
}

/// Adds frame `k` of `image` to the range, with the segment's schema where it
/// is the first of its run. What does not fit ends the read, or fails it when
/// nothing was added yet.
pub open spec fn ship(
    req: ReadRequest,
    st: ReadState,
    image: SegmentImage,
    k: int,
    is_mutation: bool,
) -> ReadStep {
    let schema_bytes: int = if st.run_started {
        0
    } else {
        (16 + image.frames@[0].frame@.payload.len()) as int
    };
    let frame_bytes: int = (16 + image.frames@[k].frame@.payload.len()) as int;
    let controls: int = (if st.run_started {
        0int
    } else {
        1int
    }) + (if is_mutation {
        0int
    } else {
        1int
    });
    if schema_bytes + frame_bytes > st.bytes_left || controls > st.controls_left {
        if st.range.next_seq == req.from_seq {
            ReadStep::Fail(WalError::RangeLimitTooSmall)
        } else {
            ReadStep::Done(st.range)
        }
    } else {
        let next_seq = if is_mutation {
            (st.range.next_seq + 1) as u64
        } else {
            st.range.next_seq
        };
        let range = RangeView { next_seq, runs: runs_with(st, image, k), ..st.range };
        if is_mutation && next_seq == req.end_seq {
            ReadStep::Done(range)
        } else {
            ReadStep::Next(
                ReadState {
                    range,
                    bytes_left: st.bytes_left - schema_bytes - frame_bytes,
                    controls_left: st.controls_left - controls,
                    run_started: true,
                    ..st
                },
            )
        }
    }
}

pub open spec fn lacks_schema() -> WalError {
    WalError::Format(FormatIssue::Text("raw range segment lacks a schema preamble"))
}

/// What reading frame `k` of `image` comes to.
pub open spec fn read_frame(
    req: ReadRequest,
    st: ReadState,
    image: SegmentImage,
    k: int,
) -> ReadStep {
    let f = image.frames@[k];
    match f.spec_decode() {
        Err(e) => ReadStep::Fail(e),
        Ok(entry) => {
            let view = f.frame.spec_stamp();
            let raised = ReadState { max_view: views::max_u64(st.max_view, view), ..st };
            if view < st.max_view && (image.start_seq == req.active_start_seq
                || entry is Mutations) {
                ReadStep::Fail(
                    WalError::UnresolvedHistory {
                        seq: st.expected_seq,
                        reason: "stale frame has no durable terminal disposition",
                    },
                )
            } else {
                match entry {
                    WalEntry::Schema(_) => if st.has_schema || f.frame.offset != 4 {
                        ReadStep::Fail(WalError::Format(FormatIssue::Text("misplaced range schema")))
                    } else {
                        ReadStep::Next(ReadState { has_schema: true, ..raised })
                    },
                    WalEntry::Mutations(record) => if !st.has_schema {
                        ReadStep::Fail(lacks_schema())
                    } else if record.seq != st.expected_seq || st.expected_seq
                        >= req.durable_next_seq {
                        ReadStep::Fail(
                            WalError::UnresolvedHistory {
                                seq: st.expected_seq,
                                reason: "mutation sequence gap, duplicate, or unpublished slot",
                            },
                        )
                    } else {
                        let passed = ReadState {
                            expected_seq: (st.expected_seq + 1) as u64,
                            ..raised
                        };
                        if record.seq < req.from_seq {
                            ReadStep::Next(passed)
                        } else if passed.range.next_seq == req.from_seq {
                            ship(
                                req,
                                ReadState {
                                    range: RangeView { seed_view: st.max_view, ..passed.range },
                                    ..passed
                                },
                                image,
                                k,
                                true,
                            )
                        } else {
                            ship(req, passed, image, k, true)
                        }
                    },
                    WalEntry::Checkpoint { .. } => if !st.has_schema {
                        ReadStep::Fail(lacks_schema())
                    } else if st.range.next_seq == req.from_seq {
                        ReadStep::Next(raised)
                    } else {
                        ship(req, raised, image, k, false)
                    },
                }
            }
        },
    }
}

/// The offset of frame `k`, or the end of the whole frames.
pub open spec fn frame_pos(image: SegmentImage, k: int) -> u64 {
    if 0 <= k < image.frames@.len() {
        image.frames@[k].frame.offset
    } else {
        image.meta.end
    }
}

/// Reads the frames of `image` from `k` on, as far as `end` publishes them.
pub open spec fn read_frames(
    req: ReadRequest,
    st: ReadState,
    image: SegmentImage,
    end: u64,
    k: int,
) -> ReadStep
    decreases image.frames@.len() - k,
{
    let pos = frame_pos(image, k);
    if pos >= end {
        if st.has_schema {
            ReadStep::Next(st)
        } else {
            ReadStep::Fail(lacks_schema())
        }
    } else if 0 <= k < image.frames@.len() && image.frames@[k].frame.spec_end() <= end {
        match read_frame(req, st, image, k) {
            ReadStep::Next(next) => read_frames(req, next, image, end, k + 1),
            stop => stop,
        }
    } else {
        match image.meta.tail {
            StreamTail::TooLarge { len } => if k >= image.frames@.len() && pos + 16 <= end {
                ReadStep::Fail(
                    WalError::Format(FormatIssue::FrameTooLarge { offset: pos, len: len as u64 }),
                )
            } else {
                ReadStep::Fail(WalError::Format(FormatIssue::TruncatedPublished { offset: pos }))
            },
            _ => ReadStep::Fail(
                WalError::Format(FormatIssue::TruncatedPublished { offset: pos }),
            ),
        }
    }
}

/// The first of `images[i..]` that starts at `start`.
pub open spec fn image_from(images: Seq<SegmentImage>, start: u64, i: int) -> Option<int>
    decreases images.len() - i,
{
    if i < 0 || i >= images.len() {
        None
    } else if images[i].start_seq == start {
        Some(i)
    } else {
        image_from(images, start, i + 1)
    }
}

/// Reads the published segment `start` up to `end`.
pub open spec fn read_one(
    req: ReadRequest,
    st: ReadState,
    images: Seq<SegmentImage>,
    start: u64,
    end: u64,
) -> ReadStep {
    if start != st.expected_seq {
        ReadStep::Fail(
            WalError::UnresolvedHistory {
                seq: st.expected_seq,
                reason: "segment boundary does not match the sequence prefix",
            },
        )
    } else {
        match image_from(images, start, 0) {
            None => ReadStep::Fail(WalError::Io(IoError::NotFound)),
            Some(i) => if images[i].meta.magic == SegmentMagic::Missing || end < 4 {
                ReadStep::Fail(WalError::Io(IoError::UnexpectedEof))
            } else if images[i].meta.magic == SegmentMagic::Foreign {
                ReadStep::Fail(
                    WalError::Format(FormatIssue::Text("invalid raw range segment magic")),
                )
            } else {
                read_frames(
                    req,
                    ReadState { has_schema: false, run_started: false, ..st },
                    images[i],
                    end,
                    0,
                )
            },
        }
    }
}

/// Reads the published segments from the `i`-th on.
pub open spec fn read_published(
    req: ReadRequest,
    st: ReadState,
    images: Seq<SegmentImage>,
    ends: Seq<(u64, u64)>,
    i: int,
) -> Result<RangeView, WalError>
    decreases ends.len() - i,
{
    if i < 0 || i >= ends.len() {
        if st.expected_seq != req.durable_next_seq {
            Err(
                WalError::UnresolvedHistory {
                    seq: st.expected_seq,
                    reason: "published sequence tail has missing mutation frames",
                },
            )
        } else {
            Ok(RangeView { seed_view: st.max_view, ..st.range })
        }
    } else {
        match read_one(req, st, images, ends[i].0, ends[i].1) {
            ReadStep::Next(next) => read_published(req, next, images, ends, i + 1),
            ReadStep::Done(range) => Ok(range),
            ReadStep::Fail(e) => Err(e),
        }
    }
}

pub open spec fn request_of(w: WalView, from_seq: u64, limits: WalRangeLimits) -> ReadRequest {
    ReadRequest {
        from_seq,
        end_seq: if w.durable_next_seq - from_seq < limits.max_records {
            w.durable_next_seq
        } else {
            (from_seq + limits.max_records) as u64
        },
        durable_next_seq: w.durable_next_seq,
        active_start_seq: w.active_start_seq,
    }
}

/// The state before the first published segment.
pub open spec fn read_start(from_seq: u64, limits: WalRangeLimits) -> ReadState {
    ReadState {
        expected_seq: 0,
        max_view: 0,
        range: RangeView { from_seq, next_seq: from_seq, seed_view: 0, runs: Seq::empty() },
        bytes_left: limits.max_bytes as int,
        controls_left: limits.max_control_frames as int,
        has_schema: false,
        run_started: false,
    }
}

/// What reading `[from_seq, ..)` from a log gives, over the segment files
/// `images`.
pub open spec fn range_read(
    w: WalView,
    from_seq: u64,
    limits: WalRangeLimits,
    images: Seq<SegmentImage>,
) -> Result<RangeView, WalError> {
    if !limits.positive() {
        Err(WalError::InvalidRangeLimits)
    } else if from_seq > w.durable_next_seq {
        Err(WalError::RangeAhead { requested: from_seq, durable_tail: w.durable_next_seq })
    } else if w.durable_ends.len() == 0 {
        Err(WalError::Format(FormatIssue::Text("no published WAL segment")))
    } else if from_seq < w.durable_ends[0].0 {
        Err(WalError::CursorBehind { requested: from_seq, oldest: w.durable_ends[0].0 })
    } else if w.durable_ends[0].0 != 0 {
        Err(WalError::MissingFenceContext { oldest: w.durable_ends[0].0 })
    } else {
        read_published(
            request_of(w, from_seq, limits),
            read_start(from_seq, limits),
            images,
            w.durable_ends,
            0,
        )
    }
}

/// A read in progress.
struct RangeReader {
    expected_seq: u64,
    max_view: u64,
    range: WalFrameRange,
    bytes_left: usize,
    controls_left: usize,
    has_schema: bool,
    run_started: bool,
}

enum StepOut {
    Next,
    Done,
    Fail(WalError),
}

impl View for RangeReader {
    type V = ReadState;

    closed spec fn view(&self) -> ReadState {
        ReadState {
            expected_seq: self.expected_seq,
            max_view: self.max_view,
            range: self.range@,
            bytes_left: self.bytes_left as int,
            controls_left: self.controls_left as int,
            has_schema: self.has_schema,
            run_started: self.run_started,
        }
    }
}

spec fn step_matches(out: StepOut, after: ReadState, step: ReadStep) -> bool {
    match step {
        ReadStep::Next(next) => out is Next && after == next,
        ReadStep::Done(range) => out is Done && after.range == range,
        ReadStep::Fail(e) => out == StepOut::Fail(e),
    }
}

impl RangeReader {
    spec fn inv(&self) -> bool {
        self.run_started ==> self.range.runs@.len() > 0
    }

    fn ship(
        &mut self,
        req: &ReadRequest,
        image: &SegmentImage,
        k: usize,
        is_mutation: bool,
    ) -> (out: StepOut)
        requires
            old(self).inv(),
            image.wf(),
            k < image.frames@.len(),
            old(self).range.next_seq < req.end_seq || !is_mutation,
        ensures
            final(self).inv(),
            step_matches(out, final(self)@, ship(*req, old(self)@, *image, k as int, is_mutation)),
    {
        proof {
            let raws = frame::raw_frames(image.frames@);
            frame::lemma_contiguous_index(raws, 4, image.meta.end as int, k as int);
            frame::lemma_contiguous_index(raws, 4, image.meta.end as int, 0);
        }
        let first = &image.frames[0].frame;
        let added = &image.frames[k].frame;
        let schema_bytes: usize = if self.run_started {
            0
        } else {
            16 + first.payload_len()
        };
        let frame_bytes: usize = 16 + added.payload_len();
        let controls: usize = (if self.run_started {
            0usize
        } else {
            1usize
        }) + (if is_mutation {
            0usize
        } else {
            1usize
        });
        if schema_bytes > self.bytes_left || frame_bytes > self.bytes_left - schema_bytes || controls
            > self.controls_left {
            return if self.range.next_seq == req.from_seq {
                StepOut::Fail(WalError::RangeLimitTooSmall)
            } else {
                StepOut::Done
            };
        }
        self.bytes_left = self.bytes_left - schema_bytes - frame_bytes;
        self.controls_left = self.controls_left - controls;
        let ghost before = self.range.runs@;
        let ghost raw = frame_raw(image.frames@[k as int]);
        if !self.run_started {
            let mut schema_frame: Vec<u8> = Vec::new();
            first.append_to(&mut schema_frame);
            let mut frames: Vec<u8> = Vec::new();
            added.append_to(&mut frames);
            proof {
                assert(Seq::<u8>::empty() + raw =~= raw);
                assert(Seq::<u8>::empty() + frame_raw(image.frames@[0]) =~= frame_raw(
                    image.frames@[0],
                ));
            }
            self.range.runs.push(
                WalSegmentRun { segment_start_seq: image.start_seq, schema_frame, frames },
            );
            self.run_started = true;
            assert(run_views(self.range.runs@) =~= runs_with(old(self)@, *image, k as int));
        } else {
            match self.range.runs.pop() {
                None => {},
                Some(mut run) => {
                    added.append_to(&mut run.frames);
                    self.range.runs.push(run);
                },
            }
            assert(run_views(self.range.runs@) =~= runs_with(old(self)@, *image, k as int));
        }
        if is_mutation {
            self.range.next_seq = self.range.next_seq + 1;
            if self.range.next_seq == req.end_seq {
                return StepOut::Done;
            }
        }
        StepOut::Next
    }

    fn read_frame(&mut self, req: &ReadRequest, image: &SegmentImage, k: usize) -> (out: StepOut)
        requires
            old(self).inv(),
            image.wf(),
            k < image.frames@.len(),
            old(self).expected_seq <= req.from_seq ==> old(self).range.next_seq == req.from_seq,
            old(self).expected_seq >= req.from_seq ==> old(self).range.next_seq
                == old(self).expected_seq,
            req.from_seq <= req.end_seq <= req.durable_next_seq,
            old(self).range.next_seq < req.end_seq || req.end_seq == req.durable_next_seq,
        ensures
            final(self).inv(),
            step_matches(out, final(self)@, read_frame(*req, old(self)@, *image, k as int)),
            out is Next ==> {
                &&& final(self).expected_seq <= req.from_seq ==> final(self).range.next_seq
                    == req.from_seq
                &&& final(self).expected_seq >= req.from_seq ==> final(self).range.next_seq
                    == final(self).expected_seq
                &&& final(self).range.next_seq < req.end_seq || req.end_seq
                    == req.durable_next_seq
            },
    {
        let f = &image.frames[k];
        let (entry, view) = match f.decode() {
            Err(e) => {
                return StepOut::Fail(e);
            },
            Ok((entry, _, view)) => (entry, view),
        };
        let prior_view: u64 = self.max_view;
        let stale = views::observe_view(&mut self.max_view, view);
        let is_mutation = match entry {
            WalEntry::Mutations(_) => true,
            _ => false,
        };
        if stale && (image.start_seq == req.active_start_seq || is_mutation) {
            return StepOut::Fail(
                WalError::UnresolvedHistory {
                    seq: self.expected_seq,
                    reason: "stale frame has no durable terminal disposition",
                },
            );
        }
        match entry {
            WalEntry::Schema(_) => {
                if self.has_schema || f.frame.offset != 4 {
                    return StepOut::Fail(
                        WalError::Format(FormatIssue::Text("misplaced range schema")),
                    );
                }
                self.has_schema = true;
                StepOut::Next
            },
            WalEntry::Mutations(record) => {
                if !self.has_schema {
                    return StepOut::Fail(
                        WalError::Format(
                            FormatIssue::Text("raw range segment lacks a schema preamble"),
                        ),
                    );
                }
                if record.seq != self.expected_seq || self.expected_seq >= req.durable_next_seq {
                    return StepOut::Fail(
                        WalError::UnresolvedHistory {
                            seq: self.expected_seq,
                            reason: "mutation sequence gap, duplicate, or unpublished slot",
                        },
                    );
                }
                self.expected_seq = self.expected_seq + 1;
                if record.seq < req.from_seq {
                    return StepOut::Next;
                }
                if self.range.next_seq == req.from_seq {
                    self.range.seed_view = prior_view;
                }
                self.ship(req, image, k, true)
            },
            WalEntry::Checkpoint { .. } => {
                if !self.has_schema {
                    return StepOut::Fail(
                        WalError::Format(
                            FormatIssue::Text("raw range segment lacks a schema preamble"),
                        ),
                    );
                }
                if self.range.next_seq == req.from_seq {
                    return StepOut::Next;
                }
                self.ship(req, image, k, false)
            },
        }
    }

    fn read_one(
        &mut self,
        req: &ReadRequest,
        images: &Vec<SegmentImage>,
        start: u64,
        end: u64,
    ) -> (out: StepOut)
        requires
            segment::images_wf(images@),
            old(self).expected_seq <= req.from_seq ==> old(self).range.next_seq == req.from_seq,
            old(self).expected_seq >= req.from_seq ==> old(self).range.next_seq
                == old(self).expected_seq,
            req.from_seq <= req.end_seq <= req.durable_next_seq,
            old(self).range.next_seq < req.end_seq || req.end_seq == req.durable_next_seq,
        ensures
            step_matches(out, final(self)@, read_one(*req, old(self)@, images@, start, end)),
            out is Next ==> {
                &&& final(self).expected_seq <= req.from_seq ==> final(self).range.next_seq
                    == req.from_seq
                &&& final(self).expected_seq >= req.from_seq ==> final(self).range.next_seq
                    == final(self).expected_seq
                &&& final(self).range.next_seq < req.end_seq || req.end_seq
                    == req.durable_next_seq
            },
    {
        if start != self.expected_seq {
            return StepOut::Fail(
                WalError::UnresolvedHistory {
                    seq: self.expected_seq,
                    reason: "segment boundary does not match the sequence prefix",
                },
            );
        }
        let found = find_image(images, start);
        let i: usize = match found {
            None => {
                return StepOut::Fail(WalError::Io(IoError::NotFound));
            },
            Some(i) => i,
        };
        let image = &images[i];
        if image.meta.magic == SegmentMagic::Missing || end < 4 {
            return StepOut::Fail(WalError::Io(IoError::UnexpectedEof));
        }
        if image.meta.magic == SegmentMagic::Foreign {
            return StepOut::Fail(
                WalError::Format(FormatIssue::Text("invalid raw range segment magic")),
            );
        }
        self.has_schema = false;
        self.run_started = false;
        let ghost initial = self@;
        let ghost raws = frame::raw_frames(image.frames@);
        let mut k: usize = 0;
        loop
            invariant
                k <= image.frames@.len(),
                image.wf(),
                raws == frame::raw_frames(image.frames@),
                self.inv(),
                self.expected_seq <= req.from_seq ==> self.range.next_seq == req.from_seq,
                self.expected_seq >= req.from_seq ==> self.range.next_seq == self.expected_seq,
                req.from_seq <= req.end_seq <= req.durable_next_seq,
                self.range.next_seq < req.end_seq || req.end_seq == req.durable_next_seq,
                read_one(*req, old(self)@, images@, start, end) == read_frames(
                    *req,
                    initial,
                    *image,
                    end,
                    0,
                ),
                read_frames(*req, initial, *image, end, 0) == read_frames(
                    *req,
                    self@,
                    *image,
                    end,
                    k as int,
                ),
            decreases image.frames@.len() - k,
        {
            let pos: u64 = if k < image.frames.len() {
                image.frames[k].frame.offset
            } else {
                image.meta.end
            };
            if pos >= end {
                return if self.has_schema {
                    StepOut::Next
                } else {
                    StepOut::Fail(
                        WalError::Format(
                            FormatIssue::Text("raw range segment lacks a schema preamble"),
                        ),
                    )
                };
            }
            if k < image.frames.len() {
                proof {
                    frame::lemma_contiguous_index(raws, 4, image.meta.end as int, k as int);
                }
                if image.frames[k].frame.next_offset() <= end {
                    match self.read_frame(req, image, k) {
                        StepOut::Next => {},
                        StepOut::Done => {
                            return StepOut::Done;
                        },
                        StepOut::Fail(e) => {
                            return StepOut::Fail(e);
                        },
                    }
                    k = k + 1;
                    continue ;
                }
                return StepOut::Fail(
                    WalError::Format(FormatIssue::TruncatedPublished { offset: pos }),
                );
            }
            if let StreamTail::TooLarge { len } = image.meta.tail {
                if end - pos >= 16 {
                    return StepOut::Fail(
                        WalError::Format(
                            FormatIssue::FrameTooLarge { offset: pos, len: len as u64 },
                        ),
                    );
                }
            }
            return StepOut::Fail(
                WalError::Format(FormatIssue::TruncatedPublished { offset: pos }),
            );
        }
    }
}

fn find_image(images: &Vec<SegmentImage>, start: u64) -> (r: Option<usize>)
    ensures
        match image_from(images@, start, 0) {
            Some(i) => (r matches Some(j) && j == i) && 0 <= i < images@.len(),
            None => r is None,
        },
{
    let mut i: usize = 0;
    while i < images.len()
        invariant
            i <= images@.len(),
            image_from(images@, start, 0) == image_from(images@, start, i as int),
        decreases images@.len() - i,
    {
        if images[i].start_seq == start {
            return Some(i);
        }
        i = i + 1;
    }
    None
}

impl Wal {
    /// Copies a bounded, contiguous range of synchronized frames out of the
    /// segment files `images`. Sequence and byte bounds come from the same
    /// publication after a sync, including control-only writes.
    ///
    /// Stale slots require authoritative dispositions, which are not available.
    /// Missing prefix fence context after retention also requires rejoin.
    /// Neither case is silently skipped. Limits may shorten a response; if the
    /// first mutation and its schema cannot fit, returns `RangeLimitTooSmall`.
    pub fn records_from(
        &self,
        from_seq: u64,
        limits: WalRangeLimits,
        images: &Vec<SegmentImage>,
    ) -> (r: Result<WalFrameRange, WalError>)
        requires
            segment::images_wf(images@),
        ensures
            match range_read(self@, from_seq, limits, images@) {
                Ok(range) => r matches Ok(found) && found@ == range,
                Err(e) => r == Err::<WalFrameRange, WalError>(e),
            },
    {
        if let Err(e) = limits.validate() {
            return Err(e);
        }
        let durable_next_seq: u64 = self.durable_seq();
        if from_seq > durable_next_seq {
            return Err(
                WalError::RangeAhead { requested: from_seq, durable_tail: durable_next_seq },
            );
        }
        let ends = self.durable_ends();
        if ends.len() == 0 {
            return Err(WalError::Format(FormatIssue::Text("no published WAL segment")));
        }
        let oldest: u64 = ends[0].0;
        if from_seq < oldest {
            return Err(WalError::CursorBehind { requested: from_seq, oldest });
        }
        if oldest != 0 {
            return Err(WalError::MissingFenceContext { oldest });
        }
        let end_seq: u64 = if durable_next_seq - from_seq < limits.max_records as u64 {
            durable_next_seq
        } else {
            from_seq + limits.max_records as u64
        };
        let req = ReadRequest {
            from_seq,
            end_seq,
            durable_next_seq,
            active_start_seq: self.active_start_seq(),
        };
        let mut reader = RangeReader {
            expected_seq: 0,
            max_view: 0,
            range: WalFrameRange {
                from_seq,
                next_seq: from_seq,
                seed_view: 0,
                runs: Vec::new(),
            },
            bytes_left: limits.max_bytes,
            controls_left: limits.max_control_frames,
            has_schema: false,
            run_started: false,
        };
        assert(run_views(reader.range.runs@) =~= Seq::empty());
        let mut i: usize = 0;
        while i < ends.len()
            invariant
                i <= ends@.len(),
                ends@ == self@.durable_ends,
                segment::images_wf(images@),
                reader.expected_seq <= req.from_seq ==> reader.range.next_seq == req.from_seq,
                reader.expected_seq >= req.from_seq ==> reader.range.next_seq
                    == reader.expected_seq,
                req.from_seq <= req.end_seq <= req.durable_next_seq,
                reader.range.next_seq < req.end_seq || req.end_seq == req.durable_next_seq,
                range_read(self@, from_seq, limits, images@) == read_published(
                    req,
                    reader@,
                    images@,
                    ends@,
                    i as int,
                ),
            decreases ends@.len() - i,
        {
            match reader.read_one(&req, images, ends[i].0, ends[i].1) {
                StepOut::Next => {},
                StepOut::Done => {
                    return Ok(reader.range);
                },
                StepOut::Fail(e) => {
                    return Err(e);
                },
            }
            i = i + 1;
        }
        if reader.expected_seq != durable_next_seq {
            return Err(
                WalError::UnresolvedHistory {
                    seq: reader.expected_seq,
                    reason: "published sequence tail has missing mutation frames",
                },
            );
        }
        let mut range = reader.range;
        range.seed_view = reader.max_view;
        Ok(range)
    }
}

} // verus!
