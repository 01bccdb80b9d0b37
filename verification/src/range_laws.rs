//! Laws on what a range read ships, and on how a follower takes it.
use crate::apply;
use crate::apply::{ApplyComponent, Codecs, WorldShape};
use crate::ends;
use crate::error::{FormatIssue, IoError, WalError};
use crate::frame;
use crate::frame::{DecodedFrame, FrameAt, FrameView, RawFrame};
use crate::plan;
use crate::plan::{DecodedRun, PlanRequest, PlanState};
use crate::range;
use crate::range::{RangeView, ReadRequest, ReadState, ReadStep, RunView};
use crate::range::{WalFrameRange, WalRangeLimits, WalSegmentRun};
use crate::record::{ComponentId, SerializedMutation, WalEntry};
use crate::segment;
use crate::segment::{SegmentImage, SegmentMagic};
use crate::views;
use crate::wal::WalView;
use vstd::prelude::*;

verus! {

/// A run as the source's own frames.
pub struct ShippedRun {
    pub start: u64,
    pub schema: DecodedFrame,
    pub frames: Seq<DecodedFrame>,
}

/// The original bytes of frames laid end to end.
pub open spec fn raw_concat(frames: Seq<DecodedFrame>) -> Seq<u8>
    decreases frames.len(),
{
    if frames.len() == 0 {
        Seq::empty()
    } else {
        raw_concat(frames.drop_last()) + range::frame_raw(frames.last())
    }
}

pub open spec fn run_of(s: ShippedRun) -> RunView {
    RunView {
        segment_start_seq: s.start,
        schema_frame: range::frame_raw(s.schema),
        frames: raw_concat(s.frames),
    }
}

pub open spec fn runs_of(shipped: Seq<ShippedRun>) -> Seq<RunView> {
    Seq::new(shipped.len(), |i: int| run_of(shipped[i]))
}

/// Position and fence after walking the frames of a run: mutations carry the
/// next sequence number and are not stale; checkpoints may stand between them.
pub open spec fn walked_frames(frames: Seq<DecodedFrame>, seq: int, fence: u64) -> Option<
    (int, u64),
>
    decreases frames.len(),
{
    if frames.len() == 0 {
        Some((seq, fence))
    } else {
        let f = frames.last();
        let view = f.frame.spec_stamp();
        match walked_frames(frames.drop_last(), seq, fence) {
            None => None,
            Some((s, h)) => match f.spec_decode() {
                Ok(WalEntry::Mutations(record)) => if record.seq == s && view >= h {
                    Some((s + 1, view))
                } else {
                    None
                },
                Ok(WalEntry::Checkpoint { .. }) => Some((s, views::max_u64(h, view))),
                _ => None,
            },
        }
    }
}

pub struct Walk {
    pub seq: int,
    pub fence: u64,
    pub start: Option<u64>,
}

/// Position and fence after walking runs: each starts with its schema, where
/// the one before left off; the first starts at or before the range.
pub open spec fn walked(shipped: Seq<ShippedRun>, from: int, seed: u64) -> Option<Walk>
    decreases shipped.len(),
{
    if shipped.len() == 0 {
        Some(Walk { seq: from, fence: seed, start: None })
    } else {
        let run = shipped.last();
        match walked(shipped.drop_last(), from, seed) {
            None => None,
            Some(w) => {
                let in_place = match w.start {
                    None => run.start <= from,
                    Some(previous) => run.start > previous && run.start == w.seq,
                };
                if !in_place || !(run.schema.spec_decode() matches Ok(WalEntry::Schema(_))) {
                    None
                } else {
                    match walked_frames(
                        run.frames,
                        w.seq,
                        views::max_u64(w.fence, run.schema.frame.spec_stamp()),
                    ) {
                        None => None,
                        Some((seq, fence)) => Some(Walk { seq, fence, start: Some(run.start) }),
                    }
                }
            },
        }
    }
}

pub open spec fn frames_bytes(frames: Seq<DecodedFrame>) -> int
    decreases frames.len(),
{
    if frames.len() == 0 {
        0
    } else {
        frames_bytes(frames.drop_last()) + 16 + frames.last().frame@.payload.len()
    }
}

pub open spec fn shipped_bytes(shipped: Seq<ShippedRun>) -> int
    decreases shipped.len(),
{
    if shipped.len() == 0 {
        0
    } else {
        shipped_bytes(shipped.drop_last()) + 16 + shipped.last().schema.frame@.payload.len()
            + frames_bytes(shipped.last().frames)
    }
}

pub open spec fn frames_controls(frames: Seq<DecodedFrame>) -> int
    decreases frames.len(),
{
    if frames.len() == 0 {
        0
    } else {
        frames_controls(frames.drop_last()) + if frames.last().spec_decode() matches Ok(
            WalEntry::Checkpoint { .. },
        ) {
            1int
        } else {
            0int
        }
    }
}

pub open spec fn shipped_controls(shipped: Seq<ShippedRun>) -> int
    decreases shipped.len(),
{
    if shipped.len() == 0 {
        0
    } else {
        shipped_controls(shipped.drop_last()) + 1 + frames_controls(shipped.last().frames)
    }
}

/// The frames are well formed.
pub open spec fn frames_wf(frames: Seq<DecodedFrame>) -> bool {
    forall|k: int| 0 <= k < frames.len() ==> (#[trigger] frames[k]).frame.wf()
}

pub open spec fn shipped_wf(shipped: Seq<ShippedRun>) -> bool {
    forall|i: int|
        #![trigger shipped[i]]
        0 <= i < shipped.len() ==> shipped[i].schema.frame.wf() && frames_wf(shipped[i].frames)
}

/// The frame holds a mutation record.
pub open spec fn is_mutation(f: DecodedFrame) -> bool {
    f.spec_decode() matches Ok(WalEntry::Mutations(_))
}

/// The mutations among `frames`, in order.
pub open spec fn mutations_in(frames: Seq<DecodedFrame>) -> Seq<DecodedFrame>
    decreases frames.len(),
{
    if frames.len() == 0 {
        Seq::empty()
    } else if is_mutation(frames.last()) {
        mutations_in(frames.drop_last()).push(frames.last())
    } else {
        mutations_in(frames.drop_last())
    }
}

/// The mutations that were shipped, in order.
pub open spec fn shipped_mutations(shipped: Seq<ShippedRun>) -> Seq<DecodedFrame>
    decreases shipped.len(),
{
    if shipped.len() == 0 {
        Seq::empty()
    } else {
        shipped_mutations(shipped.drop_last()) + mutations_in(shipped.last().frames)
    }
}

/// The run is made of the frames of `image`.
pub open spec fn run_from(run: ShippedRun, image: SegmentImage) -> bool {
    &&& run.start == image.start_seq
    &&& image.frames@.len() > 0
    &&& run.schema == image.frames@[0]
    &&& forall|j: int| 0 <= j < run.frames.len() ==> image.frames@.contains(#[trigger] run.frames[j])
}

/// Every run is made of the frames of one of `images`.
pub open spec fn shipped_from(shipped: Seq<ShippedRun>, images: Seq<SegmentImage>) -> bool {
    forall|i: int|
        #![trigger shipped[i]]
        0 <= i < shipped.len() ==> exists|a: int|
            0 <= a < images.len() && run_from(shipped[i], #[trigger] images[a])
}

/// The mutations that `image` publishes up to `end`, from frame `k` on.
pub open spec fn published_mutations(image: SegmentImage, end: u64, k: int) -> Seq<DecodedFrame>
    decreases image.frames@.len() - k,
{
    if 0 <= k < image.frames@.len() && image.frames@[k].frame.offset < end
        && image.frames@[k].frame.spec_end() <= end {
        let rest = published_mutations(image, end, k + 1);
        if is_mutation(image.frames@[k]) {
            seq![image.frames@[k]] + rest
        } else {
            rest
        }
    } else {
        Seq::empty()
    }
}

/// The mutations that a log publishes, from its `i`-th segment on.
pub open spec fn log_mutations(
    images: Seq<SegmentImage>,
    ends: Seq<(u64, u64)>,
    i: int,
) -> Seq<DecodedFrame>
    decreases ends.len() - i,
{
    if 0 <= i < ends.len() {
        let here = match range::image_from(images, ends[i].0, 0) {
            Some(at) => published_mutations(images[at], ends[i].1, 0),
            None => Seq::empty(),
        };
        here + log_mutations(images, ends, i + 1)
    } else {
        Seq::empty()
    }
}

/// `shipped` are frames of the source that make up `r`: original bytes, one
/// mutation for each sequence number of the range and in order, none stale,
/// within the limits.
pub open spec fn is_shipment(
    r: RangeView,
    shipped: Seq<ShippedRun>,
    limits: WalRangeLimits,
) -> bool {
    &&& r.runs == runs_of(shipped)
    &&& shipped_wf(shipped)
    &&& walked(shipped, r.from_seq as int, r.seed_view) matches Some(w) && w.seq == r.next_seq
    &&& r.from_seq <= r.next_seq
    &&& r.next_seq - r.from_seq <= limits.max_records
    &&& shipped_bytes(shipped) <= limits.max_bytes
    &&& shipped_controls(shipped) <= limits.max_control_frames
    &&& (shipped.len() == 0 <==> r.next_seq == r.from_seq)
}

/// The range starts where it was asked to and ends within what is durable.
pub open spec fn within(r: RangeView, req: ReadRequest) -> bool {
    r.from_seq == req.from_seq && r.next_seq <= req.durable_next_seq
}

/// The fence at the end of what was shipped.
spec fn final_fence(r: RangeView, shipped: Seq<ShippedRun>) -> u64 {
    walked(shipped, r.from_seq as int, r.seed_view)->Some_0.fence
}

/// The highest view seen when a read stops with `r` at frame `k` of `image`:
/// that of the frame counts if it was added.
spec fn stop_view(st: ReadState, r: RangeView, image: SegmentImage, k: int) -> u64 {
    if r.next_seq > st.range.next_seq {
        views::max_u64(st.max_view, image.frames@[k].frame.spec_stamp())
    } else {
        st.max_view
    }
}

/// The highest view seen when a read stops within `image`.
spec fn peak_frames(
    req: ReadRequest,
    st: ReadState,
    image: SegmentImage,
    end: u64,
    k: int,
) -> u64
    decreases image.frames@.len() - k,
{
    if 0 <= k < image.frames@.len() && range::frame_pos(image, k) < end {
        match range::read_frame(req, st, image, k) {
            ReadStep::Next(next) => peak_frames(req, next, image, end, k + 1),
            ReadStep::Done(r) => stop_view(st, r, image, k),
            ReadStep::Fail(_) => 0,
        }
    } else {
        st.max_view
    }
}

/// The highest view seen when a read stops.
spec fn peak_published(
    req: ReadRequest,
    st: ReadState,
    images: Seq<SegmentImage>,
    ends: Seq<(u64, u64)>,
    i: int,
) -> u64
    decreases ends.len() - i,
{
    if 0 <= i < ends.len() {
        let begin = ReadState { has_schema: false, run_started: false, ..st };
        match range::read_one(req, st, images, ends[i].0, ends[i].1) {
            ReadStep::Next(next) => peak_published(req, next, images, ends, i + 1),
            ReadStep::Done(_) => peak_frames(
                req,
                begin,
                images[range::image_from(images, ends[i].0, 0)->Some_0],
                ends[i].1,
                0,
            ),
            ReadStep::Fail(_) => 0,
        }
    } else {
        st.max_view
    }
}

/// What a read goes over: the segment files, and the mutations they publish.
struct Log {
    images: Seq<SegmentImage>,
    mutations: Seq<DecodedFrame>,
}

/// `shipped` holds the log's own frames: its mutations from `from` up to `next`.
spec fn drawn(log: Log, shipped: Seq<ShippedRun>, from: int, next: int) -> bool {
    &&& shipped_from(shipped, log.images)
    &&& 0 <= from <= next <= log.mutations.len()
    &&& shipped_mutations(shipped) == log.mutations.subrange(from, next)
}

/// Frame `k` of segment `a` is the next one to ship behind `shipped`: a
/// checkpoint, or the mutation that the range ends before. It does not fit in
/// the limits any more, together with its schema where it starts a run.
pub open spec fn does_not_fit(
    r: RangeView,
    shipped: Seq<ShippedRun>,
    images: Seq<SegmentImage>,
    limits: WalRangeLimits,
    a: int,
    k: int,
) -> bool {
    let f = images[a].frames@[k];
    let starts_run = shipped.last().start != images[a].start_seq;
    let schema_bytes = if starts_run {
        16 + images[a].frames@[0].frame@.payload.len()
    } else {
        0
    };
    let controls: int = (if starts_run {
        1int
    } else {
        0int
    }) + (if is_mutation(f) {
        0int
    } else {
        1int
    });
    &&& 0 <= a < images.len()
    &&& 0 <= k < images[a].frames@.len()
    &&& match f.spec_decode() {
        Ok(WalEntry::Mutations(record)) => record.seq == r.next_seq,
        Ok(WalEntry::Checkpoint { .. }) => true,
        _ => false,
    }
    &&& shipped_bytes(shipped) + schema_bytes + 16 + f.frame@.payload.len() > limits.max_bytes
        || shipped_controls(shipped) + controls > limits.max_control_frames
}

/// The next frame behind `shipped` does not fit in the limits any more.
pub open spec fn no_room(
    r: RangeView,
    shipped: Seq<ShippedRun>,
    images: Seq<SegmentImage>,
    limits: WalRangeLimits,
) -> bool {
    shipped.len() > 0 && exists|a: int, k: int|
        #[trigger] does_not_fit(r, shipped, images, limits, a, k)
}

/// What holds of a read in progress, when `shipped` was shipped so far.
spec fn read_inv(
    req: ReadRequest,
    st: ReadState,
    shipped: Seq<ShippedRun>,
    limits: WalRangeLimits,
    log: Log,
) -> bool {
    let r = st.range;
    &&& shipped_from(shipped, log.images)
    &&& shipped.len() > 0 ==> drawn(log, shipped, r.from_seq as int, r.next_seq as int)
    &&& r.from_seq == req.from_seq
    &&& r.runs == runs_of(shipped)
    &&& shipped_wf(shipped)
    &&& walked(shipped, r.from_seq as int, r.seed_view) matches Some(w) && {
        &&& w.seq == r.next_seq
        &&& shipped.len() > 0 ==> w.fence <= st.max_view
    }
    &&& st.expected_seq <= req.from_seq ==> r.next_seq == req.from_seq
    &&& st.expected_seq >= req.from_seq ==> r.next_seq == st.expected_seq
    &&& r.next_seq > req.from_seq ==> r.next_seq < req.end_seq
    &&& req.from_seq <= req.end_seq <= req.durable_next_seq
    &&& req.end_seq == req.from_seq ==> req.durable_next_seq == req.from_seq
    &&& req.end_seq - req.from_seq <= limits.max_records
    &&& st.bytes_left + shipped_bytes(shipped) == limits.max_bytes
    &&& st.controls_left + shipped_controls(shipped) == limits.max_control_frames
    &&& st.bytes_left >= 0
    &&& st.controls_left >= 0
    &&& (shipped.len() == 0 <==> r.next_seq == r.from_seq)
}

/// What holds besides within segment `image`.
spec fn segment_inv(st: ReadState, shipped: Seq<ShippedRun>, image: SegmentImage) -> bool {
    &&& image.start_seq <= st.expected_seq
    &&& st.has_schema ==> {
        &&& image.frames@.len() > 0
        &&& image.frames@[0].spec_decode() matches Ok(WalEntry::Schema(_))
        &&& image.frames@[0].frame.spec_stamp() <= st.max_view
    }
    &&& st.run_started ==> {
        &&& st.has_schema
        &&& shipped.len() > 0
        &&& run_from(shipped.last(), image)
    }
    &&& !st.run_started && shipped.len() > 0 ==> {
        &&& st.expected_seq == image.start_seq
        &&& shipped.last().start < image.start_seq
    }
}

proof fn lemma_walk_start(shipped: Seq<ShippedRun>, from: int, seed: u64)
    requires
        walked(shipped, from, seed) is Some,
    ensures
        walked(shipped, from, seed)->Some_0.start == if shipped.len() == 0 {
            None::<u64>
        } else {
            Some(shipped.last().start)
        },
{
}

/// Adding frame `k` of `image` keeps the invariant.
proof fn lemma_ship(
    req: ReadRequest,
    st: ReadState,
    shipped: Seq<ShippedRun>,
    image: SegmentImage,
    k: int,
    limits: WalRangeLimits,
    prior: u64,
    log: Log,
    at: int,
) -> (after: Seq<ShippedRun>)
    requires
        image.wf(),
        frames_wf(image.frames@),
        0 <= k < image.frames@.len(),
        0 <= at < log.images.len(),
        log.images[at] == image,
        shipped_from(shipped, log.images),
        shipped.len() > 0 ==> drawn(
            log,
            shipped,
            st.range.from_seq as int,
            st.range.next_seq as int,
        ),
        is_mutation(image.frames@[k]) ==> st.range.next_seq < log.mutations.len()
            && log.mutations[st.range.next_seq as int] == image.frames@[k],
        st.has_schema,
        segment_inv(
            ReadState {
                expected_seq: if image.frames@[k].spec_decode() matches Ok(
                    WalEntry::Mutations(_),
                ) {
                    (st.expected_seq - 1) as u64
                } else {
                    st.expected_seq
                },
                max_view: prior,
                ..st
            },
            shipped,
            image,
        ),
        prior <= st.max_view,
        st.max_view == views::max_u64(prior, image.frames@[k].frame.spec_stamp()),
        match image.frames@[k].spec_decode() {
            Ok(WalEntry::Mutations(record)) => {
                &&& record.seq == st.expected_seq - 1
                &&& record.seq >= req.from_seq
                &&& record.seq < req.end_seq
                &&& st.max_view == image.frames@[k].frame.spec_stamp()
                &&& st.range.next_seq == record.seq
                &&& shipped.len() == 0 ==> st.range.seed_view == prior && record.seq == req.from_seq
            },
            Ok(WalEntry::Checkpoint { .. }) => shipped.len() > 0 && st.range.next_seq
                == st.expected_seq,
            _ => false,
        },
        ({
            let r = st.range;
            &&& r.from_seq == req.from_seq
            &&& r.runs == runs_of(shipped)
            &&& shipped_wf(shipped)
            &&& walked(shipped, r.from_seq as int, r.seed_view) matches Some(w) && {
                &&& w.seq == r.next_seq
                &&& w.fence <= prior
            }
            &&& r.next_seq > req.from_seq ==> r.next_seq < req.end_seq
            &&& req.from_seq <= req.end_seq <= req.durable_next_seq
            &&& req.end_seq == req.from_seq ==> req.durable_next_seq == req.from_seq
            &&& req.end_seq - req.from_seq <= limits.max_records
            &&& st.bytes_left + shipped_bytes(shipped) == limits.max_bytes
            &&& st.controls_left + shipped_controls(shipped) == limits.max_control_frames
            &&& st.bytes_left >= 0
            &&& st.controls_left >= 0
            &&& r.next_seq >= req.from_seq
            &&& (shipped.len() == 0 <==> r.next_seq == r.from_seq)
        }),
    ensures
        ({
            let is_mutation = image.frames@[k].spec_decode() matches Ok(WalEntry::Mutations(_));
            match range::ship(req, st, image, k, is_mutation) {
                ReadStep::Next(next) => {
                    &&& read_inv(req, next, after, limits, log)
                    &&& segment_inv(next, after, image)
                },
                ReadStep::Done(r) => {
                    &&& is_shipment(r, after, limits)
                    &&& r.next_seq == req.end_seq || no_room(r, after, log.images, limits)
                    &&& within(r, req)
                    &&& drawn(log, after, r.from_seq as int, r.next_seq as int)
                    &&& final_fence(r, after) <= if r.next_seq > st.range.next_seq {
                        st.max_view
                    } else {
                        prior
                    }
                },
                ReadStep::Fail(_) => true,
            }
        }),
{
    let f = image.frames@[k];
    let first = image.frames@[0];
    let raws = frame::raw_frames(image.frames@);
    let is_mutation = f.spec_decode() matches Ok(WalEntry::Mutations(_));
    let r = st.range;
    let w = walked(shipped, r.from_seq as int, r.seed_view)->Some_0;
    lemma_walk_start(shipped, r.from_seq as int, r.seed_view);
    lemma_shipped_nonnegative(shipped);
    assert(f.frame.wf());
    assert(first.frame.wf());
    match range::ship(req, st, image, k, is_mutation) {
        ReadStep::Fail(_) => shipped,
        ReadStep::Done(done) if done == st.range => {
            if shipped.len() > 0 && done.next_seq != req.end_seq {
                assert(does_not_fit(done, shipped, log.images, limits, at, k));
            }
            shipped
        },
        _ => {
            let run = if st.run_started {
                ShippedRun { frames: shipped.last().frames.push(f), ..shipped.last() }
            } else {
                ShippedRun { start: image.start_seq, schema: first, frames: seq![f] }
            };
            let base = if st.run_started {
                shipped.drop_last()
            } else {
                shipped
            };
            let after = base.push(run);
            assert(after.drop_last() =~= base);
            if st.run_started {
                let old_run = shipped.last();
                assert(run.frames.drop_last() =~= old_run.frames);
                assert(shipped[shipped.len() - 1] == old_run);
                assert(frames_wf(run.frames)) by {
                    assert forall|j: int| 0 <= j < run.frames.len() implies (
                    #[trigger] run.frames[j]).frame.wf() by {
                        if j < old_run.frames.len() {
                            assert(run.frames[j] == old_run.frames[j]);
                        }
                    }
                }
            } else {
                assert(run.frames.drop_last() =~= Seq::empty());
                assert(walked_frames(
                    Seq::empty(),
                    w.seq,
                    views::max_u64(w.fence, first.frame.spec_stamp()),
                ) == Some((w.seq, views::max_u64(w.fence, first.frame.spec_stamp()))));
                assert(raw_concat(run.frames) =~= range::frame_raw(f)) by {
                    assert(raw_concat(Seq::empty()) == Seq::<u8>::empty());
                    assert(Seq::<u8>::empty() + range::frame_raw(f) =~= range::frame_raw(f));
                }
                assert(frames_wf(run.frames));
            }
            assert(shipped_wf(after)) by {
                assert forall|i: int|
                    #![trigger after[i]]
                    0 <= i < after.len() implies after[i].schema.frame.wf()
                    && frames_wf(after[i].frames) by {
                    if i < base.len() {
                        assert(after[i] == shipped[i]);
                    }
                }
            }
            assert(range::runs_with(st, image, k) =~= runs_of(after)) by {
                assert(runs_of(base) =~= if st.run_started {
                    runs_of(shipped).drop_last()
                } else {
                    runs_of(shipped)
                });
                assert(runs_of(after) =~= runs_of(base).push(run_of(run)));
                if st.run_started {
                    assert(r.runs.last() == run_of(shipped.last()));
                }
            }
            assert(run_from(run, image)) by {
                assert(image.frames@.contains(f));
                assert forall|j: int| 0 <= j < run.frames.len() implies image.frames@.contains(
                    #[trigger] run.frames[j],
                ) by {
                    if j < run.frames.len() - 1 {
                        assert(run.frames[j] == shipped.last().frames[j]);
                    }
                }
            }
            assert(shipped_from(after, log.images)) by {
                assert forall|i: int|
                    #![trigger after[i]]
                    0 <= i < after.len() implies exists|a: int|
                    0 <= a < log.images.len() && run_from(after[i], #[trigger] log.images[a]) by {
                    if i < base.len() {
                        assert(after[i] == shipped[i]);
                    } else {
                        assert(run_from(after[i], log.images[at]));
                    }
                }
            }
            lemma_mutation_shipped(shipped, base, run, f, st.run_started);
            let from = r.from_seq as int;
            let next = r.next_seq as int;
            if shipped.len() == 0 {
                assert(log.mutations.subrange(from, next) =~= Seq::empty());
            }
            if is_mutation {
                assert(log.mutations.subrange(from, next + 1) =~= log.mutations.subrange(
                    from,
                    next,
                ).push(f));
            }
            assert(frames_bytes(run.frames) == frames_bytes(run.frames.drop_last()) + 16
                + f.frame@.payload.len());
            assert(frames_bytes(Seq::empty()) == 0);
            assert(frames_controls(Seq::empty()) == 0);
            after
        },
    }
}

/// Adding a frame to what was shipped adds it to the mutations if it is one.
proof fn lemma_mutation_shipped(
    shipped: Seq<ShippedRun>,
    base: Seq<ShippedRun>,
    run: ShippedRun,
    f: DecodedFrame,
    started: bool,
)
    requires
        started ==> shipped.len() > 0 && base == shipped.drop_last() && run.frames
            == shipped.last().frames.push(f),
        !started ==> base == shipped && run.frames == seq![f],
    ensures
        shipped_mutations(base.push(run)) == if is_mutation(f) {
            shipped_mutations(shipped).push(f)
        } else {
            shipped_mutations(shipped)
        },
{
    let after = base.push(run);
    assert(after.drop_last() =~= base);
    assert(run.frames.last() == f);
    if started {
        assert(run.frames.drop_last() =~= shipped.last().frames);
    } else {
        assert(run.frames.drop_last() =~= Seq::empty());
        assert(mutations_in(Seq::empty()) == Seq::<DecodedFrame>::empty());
    }
    assert(shipped_mutations(after) =~= if is_mutation(f) {
        shipped_mutations(shipped).push(f)
    } else {
        shipped_mutations(shipped)
    });
}

proof fn lemma_frames_nonnegative(frames: Seq<DecodedFrame>)
    ensures
        frames_bytes(frames) >= 0,
        frames_controls(frames) >= 0,
    decreases frames.len(),
{
    if frames.len() > 0 {
        lemma_frames_nonnegative(frames.drop_last());
    }
}

proof fn lemma_shipped_nonnegative(shipped: Seq<ShippedRun>)
    ensures
        shipped_bytes(shipped) >= 0,
        shipped_controls(shipped) >= 0,
    decreases shipped.len(),
{
    if shipped.len() > 0 {
        lemma_shipped_nonnegative(shipped.drop_last());
        lemma_frames_nonnegative(shipped.last().frames);
    }
}

/// Reading one frame keeps the invariant.
proof fn lemma_read_frame(
    req: ReadRequest,
    st: ReadState,
    shipped: Seq<ShippedRun>,
    image: SegmentImage,
    k: int,
    limits: WalRangeLimits,
    log: Log,
    at: int,
) -> (after: Seq<ShippedRun>)
    requires
        image.wf(),
        frames_wf(image.frames@),
        0 <= k < image.frames@.len(),
        0 <= at < log.images.len(),
        log.images[at] == image,
        is_mutation(image.frames@[k]) ==> st.expected_seq < log.mutations.len()
            && log.mutations[st.expected_seq as int] == image.frames@[k],
        read_inv(req, st, shipped, limits, log),
        segment_inv(st, shipped, image),
    ensures
        match range::read_frame(req, st, image, k) {
            ReadStep::Next(next) => {
                &&& read_inv(req, next, after, limits, log)
                &&& segment_inv(next, after, image)
                &&& st.run_started ==> next.run_started
                &&& !next.run_started ==> after == shipped
            },
            ReadStep::Done(r) => {
                &&& is_shipment(r, after, limits)
                &&& r.next_seq == req.end_seq || no_room(r, after, log.images, limits)
                &&& within(r, req)
                &&& drawn(log, after, r.from_seq as int, r.next_seq as int)
                &&& final_fence(r, after) <= stop_view(st, r, image, k)
            },
            ReadStep::Fail(_) => true,
        },
{
    let f = image.frames@[k];
    let raws = frame::raw_frames(image.frames@);
    frame::lemma_contiguous_index(raws, 4, image.meta.end as int, k);
    frame::lemma_contiguous_index(raws, 4, image.meta.end as int, 0);
    if k > 0 {
        lemma_offset_grows(raws, 4, image.meta.end as int, k);
    }
    let view = f.frame.spec_stamp();
    let raised = ReadState { max_view: views::max_u64(st.max_view, view), ..st };
    match f.spec_decode() {
        Ok(WalEntry::Mutations(record)) => {
            let passed = ReadState { expected_seq: (st.expected_seq + 1) as u64, ..raised };
            if range::read_frame(req, st, image, k) is Fail || record.seq < req.from_seq {
                shipped
            } else if shipped.len() == 0 {
                assert(record.seq == req.from_seq);
                let seeded = ReadState {
                    range: RangeView { seed_view: st.max_view, ..passed.range },
                    ..passed
                };
                lemma_ship(req, seeded, shipped, image, k, limits, st.max_view, log, at)
            } else {
                lemma_ship(req, passed, shipped, image, k, limits, st.max_view, log, at)
            }
        },
        Ok(WalEntry::Checkpoint { .. }) => {
            if range::read_frame(req, st, image, k) is Fail || shipped.len() == 0 {
                shipped
            } else {
                lemma_ship(req, raised, shipped, image, k, limits, st.max_view, log, at)
            }
        },
        _ => shipped,
    }
}

proof fn lemma_offset_grows(raws: Seq<RawFrame>, start: int, end: int, k: int)
    requires
        frame::contiguous(raws, start, end),
        0 < k < raws.len(),
    ensures
        raws[k].offset > start,
{
    frame::lemma_contiguous_index(raws, start, end, k);
    frame::lemma_contiguous_index(raws, start, end, k - 1);
}

/// Reading a segment from frame `k` on keeps the invariant.
proof fn lemma_read_frames(
    req: ReadRequest,
    st: ReadState,
    shipped: Seq<ShippedRun>,
    image: SegmentImage,
    end: u64,
    k: int,
    limits: WalRangeLimits,
    log: Log,
    at: int,
    rest: Seq<DecodedFrame>,
) -> (after: Seq<ShippedRun>)
    requires
        image.wf(),
        frames_wf(image.frames@),
        0 <= k,
        0 <= at < log.images.len(),
        log.images[at] == image,
        st.expected_seq <= log.mutations.len(),
        log.mutations.skip(st.expected_seq as int) == published_mutations(image, end, k) + rest,
        read_inv(req, st, shipped, limits, log),
        segment_inv(st, shipped, image),
    ensures
        match range::read_frames(req, st, image, end, k) {
            ReadStep::Next(next) => {
                &&& read_inv(req, next, after, limits, log)
                &&& segment_inv(next, after, image)
                &&& st.run_started ==> next.run_started
                &&& !next.run_started ==> after == shipped
                &&& next.expected_seq <= log.mutations.len()
                &&& log.mutations.skip(next.expected_seq as int) == rest
            },
            ReadStep::Done(r) => {
                &&& is_shipment(r, after, limits)
                &&& r.next_seq == req.end_seq || no_room(r, after, log.images, limits)
                &&& within(r, req)
                &&& drawn(log, after, r.from_seq as int, r.next_seq as int)
                &&& final_fence(r, after) <= peak_frames(req, st, image, end, k)
            },
            ReadStep::Fail(_) => true,
        },
    decreases image.frames@.len() - k,
{
    let pos = range::frame_pos(image, k);
    if pos < end && k < image.frames@.len() && image.frames@[k].frame.spec_end() <= end {
        let f = image.frames@[k];
        let ahead = log.mutations.skip(st.expected_seq as int);
        let later = published_mutations(image, end, k + 1) + rest;
        if is_mutation(f) {
            assert(ahead =~= seq![f] + later);
            assert(ahead[0] == f);
            assert(log.mutations.skip(st.expected_seq + 1) =~= ahead.skip(1));
            assert(ahead.skip(1) =~= later);
        }
        let mid = lemma_read_frame(req, st, shipped, image, k, limits, log, at);
        match range::read_frame(req, st, image, k) {
            ReadStep::Next(next) => lemma_read_frames(
                req,
                next,
                mid,
                image,
                end,
                k + 1,
                limits,
                log,
                at,
                rest,
            ),
            _ => mid,
        }
    } else {
        assert(Seq::<DecodedFrame>::empty() + rest =~= rest);
        shipped
    }
}

proof fn lemma_image_from(images: Seq<SegmentImage>, start: u64, i: int)
    ensures
        range::image_from(images, start, i) matches Some(j) ==> 0 <= j < images.len()
            && images[j].start_seq == start,
    decreases images.len() - i,
{
    if 0 <= i < images.len() && images[i].start_seq != start {
        lemma_image_from(images, start, i + 1);
    }
}

/// The last shipped run lies in a segment before the `i`-th published one.
spec fn behind(shipped: Seq<ShippedRun>, ends: Seq<(u64, u64)>, i: int) -> bool {
    shipped.len() > 0 ==> exists|j: int|
        0 <= j < i && j < ends.len() && (#[trigger] ends[j]).0 == shipped.last().start
}

proof fn lemma_frames_wf(image: SegmentImage)
    requires
        image.wf(),
    ensures
        frames_wf(image.frames@),
{
    let raws = frame::raw_frames(image.frames@);
    assert forall|k: int| 0 <= k < image.frames@.len() implies (
    #[trigger] image.frames@[k]).frame.wf() by {
        frame::lemma_contiguous_index(raws, 4, image.meta.end as int, k);
        assert(raws[k] == image.frames@[k].frame);
    }
}

/// Reading the published segments from the `i`-th on gives a shipment.
proof fn lemma_read_published(
    req: ReadRequest,
    st: ReadState,
    shipped: Seq<ShippedRun>,
    images: Seq<SegmentImage>,
    ends: Seq<(u64, u64)>,
    i: int,
    limits: WalRangeLimits,
    log: Log,
) -> (after: Seq<ShippedRun>)
    requires
        segment::images_wf(images),
        ends::ascending(ends),
        0 <= i,
        log.images == images,
        st.expected_seq <= log.mutations.len(),
        log.mutations.skip(st.expected_seq as int) == log_mutations(images, ends, i),
        read_inv(req, st, shipped, limits, log),
        behind(shipped, ends, i),
    ensures
        range::read_published(req, st, images, ends, i) matches Ok(r) ==> {
            &&& is_shipment(r, after, limits)
            &&& r.next_seq == req.end_seq || no_room(r, after, log.images, limits)
            &&& within(r, req)
            &&& drawn(log, after, r.from_seq as int, r.next_seq as int)
            &&& final_fence(r, after) <= peak_published(req, st, images, ends, i)
        },
    decreases ends.len() - i,
{
    if i >= ends.len() {
        lemma_shipped_nonnegative(shipped);
        if st.expected_seq == req.durable_next_seq {
            assert(shipped.len() == 0);
            assert(walked(shipped, req.from_seq as int, st.max_view) == Some(
                Walk { seq: req.from_seq as int, fence: st.max_view, start: None },
            ));
            let from = req.from_seq as int;
            assert(log.mutations.skip(st.expected_seq as int).len() == 0);
            assert(log.mutations.subrange(from, from) =~= Seq::empty());
        }
        shipped
    } else {
        let (start, end) = ends[i];
        lemma_image_from(images, start, 0);
        if range::read_one(req, st, images, start, end) is Fail {
            shipped
        } else {
            let at = range::image_from(images, start, 0)->Some_0;
            let image = images[at];
            assert(image.wf());
            lemma_frames_wf(image);
            let begin = ReadState { has_schema: false, run_started: false, ..st };
            if shipped.len() > 0 {
                let j = choose|j: int|
                    0 <= j < i && j < ends.len() && (#[trigger] ends[j]).0
                        == shipped.last().start;
                assert(ends[j].0 < ends[i].0);
            }
            assert(read_inv(req, begin, shipped, limits, log));
            assert(segment_inv(begin, shipped, image));
            let mid = lemma_read_frames(
                req,
                begin,
                shipped,
                image,
                end,
                0,
                limits,
                log,
                at,
                log_mutations(images, ends, i + 1),
            );
            match range::read_one(req, st, images, start, end) {
                ReadStep::Next(next) => {
                    assert(behind(mid, ends, i + 1)) by {
                        if mid.len() > 0 {
                            if next.run_started {
                                assert(ends[i].0 == mid.last().start);
                            } else {
                                let j = choose|j: int|
                                    0 <= j < i && j < ends.len() && (#[trigger] ends[j]).0
                                        == shipped.last().start;
                                assert(ends[j].0 == mid.last().start);
                            }
                        }
                    }
                    lemma_read_published(req, next, mid, images, ends, i + 1, limits, log)
                },
                _ => mid,
            }
        }
    }
}

/// A range read ships original frames of the source that cover exactly
/// `[from_seq, next_seq)`: the log's own mutations at those places, one for
/// each sequence number and in order, none stale, from durable slots only and
/// within the limits. Each run is made of frames of one segment file and
/// carries its schema. It ends at the durable tail or after as many records as
/// were asked for, unless the next frame does not fit any more.
pub proof fn law_range_covers_its_slots(
    w: WalView,
    from_seq: u64,
    limits: WalRangeLimits,
    images: Seq<SegmentImage>,
) -> (shipped: Seq<ShippedRun>)
    requires
        ends::ascending(w.durable_ends),
        segment::images_wf(images),
        range::range_read(w, from_seq, limits, images) is Ok,
    ensures
        ({
            let r = range::range_read(w, from_seq, limits, images)->Ok_0;
            &&& is_shipment(r, shipped, limits)
            &&& r.next_seq == w.durable_next_seq || r.next_seq == from_seq + limits.max_records
                || no_room(r, shipped, images, limits)
            &&& shipped_from(shipped, images)
            &&& r.from_seq == from_seq
            &&& from_seq <= r.next_seq <= w.durable_next_seq
            &&& r.next_seq <= log_mutations(images, w.durable_ends, 0).len()
            &&& shipped_mutations(shipped) == log_mutations(images, w.durable_ends, 0).subrange(
                from_seq as int,
                r.next_seq as int,
            )
        }),
{
    let req = range::request_of(w, from_seq, limits);
    let st = range::read_start(from_seq, limits);
    let none = Seq::<ShippedRun>::empty();
    assert(runs_of(none) =~= Seq::empty());
    let mutations = log_mutations(images, w.durable_ends, 0);
    let log = Log { images, mutations };
    assert(mutations.skip(0) =~= mutations);
    assert(read_inv(req, st, none, limits, log));
    lemma_read_published(req, st, none, images, w.durable_ends, 0, limits, log)
}

proof fn lemma_raw_len(frames: Seq<DecodedFrame>)
    ensures
        raw_concat(frames).len() == frames_bytes(frames),
    decreases frames.len(),
{
    if frames.len() > 0 {
        lemma_raw_len(frames.drop_last());
    }
}

proof fn lemma_raw_split(frames: Seq<DecodedFrame>, i: int)
    requires
        0 <= i <= frames.len(),
    ensures
        raw_concat(frames) == raw_concat(frames.take(i)) + raw_concat(frames.skip(i)),
    decreases frames.len(),
{
    if i == frames.len() {
        assert(frames.take(i) =~= frames);
        assert(frames.skip(i) =~= Seq::empty());
        assert(raw_concat(frames) + Seq::<u8>::empty() =~= raw_concat(frames));
    } else {
        let init = frames.drop_last();
        lemma_raw_split(init, i);
        assert(init.take(i) =~= frames.take(i));
        assert(frames.skip(i).drop_last() =~= init.skip(i));
        assert(frames.skip(i).last() == frames.last());
        assert(raw_concat(frames.take(i)) + (raw_concat(init.skip(i)) + range::frame_raw(
            frames.last(),
        )) =~= (raw_concat(frames.take(i)) + raw_concat(init.skip(i))) + range::frame_raw(
            frames.last(),
        ));
    }
}

/// Where frame `i` of a run stands in its buffer.
spec fn place_in(frames: Seq<DecodedFrame>, i: int) -> int {
    frames_bytes(frames.take(i))
}

spec fn view_in(frames: Seq<DecodedFrame>, i: int) -> FrameView {
    FrameView {
        offset: place_in(frames, i),
        header: frames[i].frame@.header,
        payload: frames[i].frame@.payload,
    }
}

proof fn lemma_frame_in_buffer(frames: Seq<DecodedFrame>, i: int)
    requires
        0 <= i < frames.len(),
        frames[i].frame.wf(),
    ensures
        frame::frame_at(raw_concat(frames), place_in(frames, i)) == FrameAt::Whole(
            view_in(frames, i),
        ),
        place_in(frames, i + 1) == place_in(frames, i) + 16 + frames[i].frame@.payload.len(),
        place_in(frames, i) >= 0,
        place_in(frames, i + 1) <= raw_concat(frames).len(),
{
    let f = frames[i];
    lemma_raw_split(frames, i + 1);
    let lead = raw_concat(frames.take(i));
    let rest = raw_concat(frames.skip(i + 1));
    assert(frames.take(i + 1).drop_last() =~= frames.take(i));
    assert(frames.take(i + 1).last() == f);
    lemma_raw_len(frames.take(i));
    lemma_raw_len(frames.take(i + 1));
    lemma_frames_nonnegative(frames.take(i));
    let bytes = raw_concat(frames);
    let pos = place_in(frames, i);
    assert(bytes.subrange(pos, pos + 16) =~= f.frame@.header);
    assert(bytes.subrange(pos + 16, pos + 16 + f.frame@.payload.len()) =~= f.frame@.payload);
}

proof fn lemma_buffer_stream(frames: Seq<DecodedFrame>, i: int)
    requires
        0 <= i <= frames.len(),
        forall|k: int| 0 <= k < frames.len() ==> (#[trigger] frames[k]).frame.wf(),
    ensures
        frame::stream(raw_concat(frames), place_in(frames, i)).len() == frames.len() - i,
        frame::stream_end(raw_concat(frames), place_in(frames, i)) == raw_concat(frames).len(),
        forall|k: int|
            i <= k < frames.len() ==> frame::stream(raw_concat(frames), place_in(frames, i))[k - i]
                == #[trigger] view_in(frames, k),
    decreases frames.len() - i,
{
    let bytes = raw_concat(frames);
    lemma_raw_len(frames);
    if i == frames.len() {
        assert(frames.take(i) =~= frames);
    } else {
        lemma_frame_in_buffer(frames, i);
        lemma_buffer_stream(frames, i + 1);
        let here = frame::stream(bytes, place_in(frames, i));
        let next = frame::stream(bytes, place_in(frames, i + 1));
        assert(here =~= seq![view_in(frames, i)] + next);
        assert forall|k: int| i <= k < frames.len() implies here[k - i] == #[trigger] view_in(
            frames,
            k,
        ) by {
            if k > i {
                assert(here[k - i] == next[k - (i + 1)]);
            }
        }
    }
}

/// A decoder of payloads: what it says depends on the bytes alone.
pub type Decoder = spec_fn(Seq<u8>) -> Result<WalEntry, String>;

/// The frame is well formed and was decoded by `decoder`.
pub open spec fn decoded_by(f: DecodedFrame, decoder: Decoder) -> bool {
    f.frame.wf() && f.entry == decoder(f.frame@.payload)
}

pub open spec fn all_decoded_by(frames: Seq<DecodedFrame>, decoder: Decoder) -> bool {
    forall|k: int| 0 <= k < frames.len() ==> decoded_by(#[trigger] frames[k], decoder)
}

pub open spec fn shipped_decoded_by(shipped: Seq<ShippedRun>, decoder: Decoder) -> bool {
    forall|i: int|
        #![trigger shipped[i]]
        0 <= i < shipped.len() ==> decoded_by(shipped[i].schema, decoder) && all_decoded_by(
            shipped[i].frames,
            decoder,
        )
}

pub open spec fn images_decoded_by(images: Seq<SegmentImage>, decoder: Decoder) -> bool {
    forall|i: int|
        #![trigger images[i]]
        0 <= i < images.len() ==> all_decoded_by(images[i].frames@, decoder)
}

/// What was shipped from decoded files is decoded.
proof fn lemma_shipped_decoded(
    shipped: Seq<ShippedRun>,
    images: Seq<SegmentImage>,
    decoder: Decoder,
)
    requires
        shipped_from(shipped, images),
        images_decoded_by(images, decoder),
    ensures
        shipped_decoded_by(shipped, decoder),
{
    assert forall|i: int|
        #![trigger shipped[i]]
        0 <= i < shipped.len() implies decoded_by(shipped[i].schema, decoder) && all_decoded_by(
        shipped[i].frames,
        decoder,
    ) by {
        let a = choose|a: int|
            0 <= a < images.len() && run_from(shipped[i], #[trigger] images[a]);
        let frames = images[a].frames@;
        assert(all_decoded_by(frames, decoder));
        assert(decoded_by(frames[0], decoder));
        assert forall|k: int| 0 <= k < shipped[i].frames.len() implies decoded_by(
            #[trigger] shipped[i].frames[k],
            decoder,
        ) by {
            let f = shipped[i].frames[k];
            assert(frames.contains(f));
            let j = choose|j: int| 0 <= j < frames.len() && frames[j] == f;
            assert(decoded_by(frames[j], decoder));
        }
    }
}

/// Two frames with the same header and payload under the same decoder decode
/// alike.
proof fn lemma_same_decode(a: DecodedFrame, b: DecodedFrame)
    requires
        a.frame@.header == b.frame@.header,
        a.frame@.payload == b.frame@.payload,
        a.entry == b.entry,
        b.spec_decode() is Ok,
    ensures
        a.spec_decode() == b.spec_decode(),
        a.frame.spec_stamp() == b.frame.spec_stamp(),
{
}

/// The follower's frames of a run are the shipped ones.
proof fn lemma_run_decodes(
    run: WalSegmentRun,
    decoded: DecodedRun,
    s: ShippedRun,
    decoder: Decoder,
)
    requires
        run@ == run_of(s),
        decoded.decodes(run),
        decoded_by(s.schema, decoder),
        all_decoded_by(s.frames, decoder),
        decoded.schema matches Ok(f) ==> f.entry == decoder(f.frame@.payload),
        forall|k: int|
            0 <= k < decoded.frames@.len() ==> (#[trigger] decoded.frames@[k]).entry == decoder(
                decoded.frames@[k].frame@.payload,
            ),
    ensures
        decoded.schema matches Ok(f) && f.frame@.header == s.schema.frame@.header
            && f.frame@.payload == s.schema.frame@.payload && f.entry == s.schema.entry
            && f.frame.spec_end() == run.schema_frame@.len(),
        decoded.frames@.len() == s.frames.len(),
        decoded.failure is None,
        forall|k: int|
            0 <= k < s.frames.len() ==> (#[trigger] decoded.frames@[k]).frame@.header
                == s.frames[k].frame@.header && decoded.frames@[k].frame@.payload
                == s.frames[k].frame@.payload && decoded.frames@[k].entry == s.frames[k].entry,
{
    let bytes = run.schema_frame@;
    assert(bytes == range::frame_raw(s.schema));
    assert(bytes.subrange(0, 16) =~= s.schema.frame@.header);
    assert(bytes.subrange(16, (16 + s.schema.frame@.payload.len()) as int)
        =~= s.schema.frame@.payload);
    assert(frame::frame_at(bytes, 0) == FrameAt::Whole(
        FrameView {
            offset: 0,
            header: s.schema.frame@.header,
            payload: s.schema.frame@.payload,
        },
    ));
    assert forall|k: int| 0 <= k < s.frames.len() implies (#[trigger] s.frames[k]).frame.wf() by {
        assert(decoded_by(s.frames[k], decoder));
    }
    lemma_buffer_stream(s.frames, 0);
    assert(s.frames.take(0) =~= Seq::empty());
    assert(place_in(s.frames, 0) == 0);
    let raws = frame::raw_frames(decoded.frames@);
    assert(frame::frame_views(raws) == frame::stream(run.frames@, 0));
    assert forall|k: int| 0 <= k < s.frames.len() implies (#[trigger] decoded.frames@[k]).frame@.header
        == s.frames[k].frame@.header && decoded.frames@[k].frame@.payload
        == s.frames[k].frame@.payload && decoded.frames@[k].entry == s.frames[k].entry by {
        assert(frame::frame_views(raws)[k] == raws[k]@);
        assert(frame::stream(run.frames@, 0)[k - 0] == view_in(s.frames, k));
        assert(decoded_by(s.frames[k], decoder));
    }
}

/// A failure that lies with the destination: a component that it does not
/// know, or a tick.
pub open spec fn is_apply_error(e: WalError) -> bool {
    match e {
        WalError::Codec(_) => true,
        WalError::TickRegression { .. } => true,
        WalError::Format(FormatIssue::UnboundComponent { .. }) => true,
        WalError::Format(FormatIssue::TickOverflow { .. }) => true,
        WalError::Format(FormatIssue::Text(text)) => text
            == "duplicate component ID or name in WAL schema",
        _ => false,
    }
}

proof fn lemma_bind_error(
    pairs: Seq<(ComponentId, ComponentId)>,
    world: WorldShape,
    codecs: Codecs,
)
    ensures
        apply::bound_pairs(pairs, world, codecs) matches Err(e) ==> is_apply_error(e),
    decreases pairs.len(),
{
    if pairs.len() > 0 {
        lemma_bind_error(pairs.drop_last(), world, codecs);
    }
}

proof fn lemma_first_unresolved_error(
    ids: Seq<ComponentId>,
    i: int,
    remap: Map<ComponentId, ApplyComponent>,
    codecs: Codecs,
)
    ensures
        apply::first_unresolved(ids, i, remap, codecs) matches Some(e) ==> is_apply_error(e),
    decreases ids.len() - i,
{
    if 0 <= i < ids.len() {
        lemma_first_unresolved_error(ids, i + 1, remap, codecs);
    }
}

proof fn lemma_unresolved_error(
    mutations: Seq<SerializedMutation>,
    i: int,
    remap: Map<ComponentId, ApplyComponent>,
    codecs: Codecs,
)
    ensures
        apply::unresolved_from(mutations, i, remap, codecs) matches Some(e) ==> is_apply_error(e),
    decreases mutations.len() - i,
{
    if 0 <= i < mutations.len() {
        lemma_first_unresolved_error(apply::refs_of(mutations[i]), 0, remap, codecs);
        lemma_unresolved_error(mutations, i + 1, remap, codecs);
    }
}

proof fn lemma_walk_prefix(frames: Seq<DecodedFrame>, seq: int, fence: u64, k: int)
    requires
        0 <= k <= frames.len(),
        walked_frames(frames, seq, fence) is Some,
    ensures
        walked_frames(frames.take(k), seq, fence) is Some,
        seq <= walked_frames(frames.take(k), seq, fence)->Some_0.0 <= walked_frames(
            frames,
            seq,
            fence,
        )->Some_0.0,
        fence <= walked_frames(frames.take(k), seq, fence)->Some_0.1,
        0 <= frames_controls(frames.take(k)) <= frames_controls(frames),
    decreases frames.len(),
{
    lemma_frames_nonnegative(frames.take(k));
    if k == frames.len() {
        assert(frames.take(k) =~= frames);
        if frames.len() > 0 {
            lemma_walk_prefix(frames.drop_last(), seq, fence, k - 1);
            assert(frames.drop_last().take(k - 1) =~= frames.drop_last());
        }
    } else {
        assert(frames.drop_last().take(k) =~= frames.take(k));
        lemma_walk_prefix(frames.drop_last(), seq, fence, k);
    }
}

/// Planning the frames of a shipped run gets to its end, unless the destination
/// cannot apply a record.
proof fn lemma_plan_shipped_frames(
    req: PlanRequest,
    st: PlanState,
    decoded: DecodedRun,
    source: usize,
    k: int,
    s: ShippedRun,
    seq: int,
    fence: u64,
    spare: int,
)
    requires
        0 <= k <= s.frames.len(),
        decoded.frames@.len() == s.frames.len(),
        decoded.failure is None,
        forall|k: int|
            0 <= k < s.frames.len() ==> (#[trigger] decoded.frames@[k]).frame@.header
                == s.frames[k].frame@.header && decoded.frames@[k].frame@.payload
                == s.frames[k].frame@.payload && decoded.frames@[k].entry == s.frames[k].entry,
        walked_frames(s.frames, seq, fence) is Some,
        walked_frames(s.frames, seq, fence)->Some_0.0 <= req.next_seq,
        walked_frames(s.frames.take(k), seq, fence) == Some((st.expected_seq as int, st.max_view)),
        req.restored_view <= fence,
        spare >= 0,
        st.controls_left == spare + frames_controls(s.frames) - frames_controls(s.frames.take(k)),
    ensures
        match plan::plan_frames(req, st, decoded, source, k) {
            Ok(after) => {
                &&& walked_frames(s.frames, seq, fence) == Some(
                    (after.expected_seq as int, after.max_view),
                )
                &&& after.controls_left == spare
                &&& after.previous_start == st.previous_start
            },
            Err(e) => is_apply_error(e),
        },
    decreases s.frames.len() - k,
{
    if k == s.frames.len() {
        assert(s.frames.take(k) =~= s.frames);
    } else {
        let f = decoded.frames@[k];
        let g = s.frames[k];
        let next = s.frames.take(k + 1);
        assert(next.drop_last() =~= s.frames.take(k));
        assert(next.last() == g);
        lemma_walk_prefix(s.frames, seq, fence, k + 1);
        lemma_walk_prefix(s.frames, seq, fence, k);
        assert(g.spec_decode() is Ok);
        lemma_same_decode(f, g);
        if let Ok(WalEntry::Mutations(record)) = g.spec_decode() {
            lemma_unresolved_error(record.mutations@, 0, st.remaps.last(), req.codecs);
        }
        match plan::plan_frame(req, st, f, source, k as usize) {
            Ok(after) => {
                lemma_plan_shipped_frames(
                    req,
                    after,
                    decoded,
                    source,
                    k + 1,
                    s,
                    seq,
                    fence,
                    spare,
                );
            },
            Err(e) => {
                assert(is_apply_error(e));
            },
        }
    }
}

proof fn lemma_walked_prefix(shipped: Seq<ShippedRun>, from: int, seed: u64, i: int)
    requires
        0 <= i <= shipped.len(),
        walked(shipped, from, seed) is Some,
    ensures
        walked(shipped.take(i), from, seed) is Some,
        walked(shipped.take(i), from, seed)->Some_0.seq <= walked(
            shipped,
            from,
            seed,
        )->Some_0.seq,
        walked(shipped.take(i), from, seed)->Some_0.fence >= seed,
        0 <= shipped_controls(shipped.take(i)) <= shipped_controls(shipped),
    decreases shipped.len(),
{
    lemma_shipped_nonnegative(shipped.take(i));
    if shipped.len() > 0 {
        let run = shipped.last();
        lemma_frames_nonnegative(run.frames);
        let w = walked(shipped.drop_last(), from, seed)->Some_0;
        lemma_walk_prefix(
            run.frames,
            w.seq,
            views::max_u64(w.fence, run.schema.frame.spec_stamp()),
            run.frames.len() as int,
        );
        assert(run.frames.take(run.frames.len() as int) =~= run.frames);
    }
    if i == shipped.len() {
        assert(shipped.take(i) =~= shipped);
        if shipped.len() > 0 {
            lemma_walked_prefix(shipped.drop_last(), from, seed, i - 1);
            assert(shipped.drop_last().take(i - 1) =~= shipped.drop_last());
        }
    } else {
        assert(shipped.drop_last().take(i) =~= shipped.take(i));
        lemma_walked_prefix(shipped.drop_last(), from, seed, i);
    }
}

/// The follower decodes what it received with `decoder`.
pub open spec fn received_by(decoded: Seq<DecodedRun>, decoder: Decoder) -> bool {
    forall|i: int|
        #![trigger decoded[i]]
        0 <= i < decoded.len() ==> {
            &&& decoded[i].schema matches Ok(f) ==> f.entry == decoder(f.frame@.payload)
            &&& forall|k: int|
                0 <= k < decoded[i].frames@.len() ==> (#[trigger] decoded[i].frames@[k]).entry
                    == decoder(decoded[i].frames@[k].frame@.payload)
        }
}

proof fn lemma_plan_shipped_runs(
    req: PlanRequest,
    st: PlanState,
    range: WalFrameRange,
    decoded: Seq<DecodedRun>,
    i: int,
    shipped: Seq<ShippedRun>,
    spare: int,
    decoder: Decoder,
)
    requires
        0 <= i <= shipped.len(),
        range@.runs == runs_of(shipped),
        plan::decodes_range(range, decoded),
        received_by(decoded, decoder),
        shipped_decoded_by(shipped, decoder),
        req.from_seq == range.from_seq,
        req.next_seq == range.next_seq,
        req.restored_view <= range.seed_view,
        walked(shipped, range.from_seq as int, range.seed_view) matches Some(w) && w.seq
            == range.next_seq,
        walked(shipped.take(i), range.from_seq as int, range.seed_view) == Some(
            Walk {
                seq: st.expected_seq as int,
                fence: st.max_view,
                start: st.previous_start,
            },
        ),
        spare >= 0,
        st.controls_left == spare + shipped_controls(shipped) - shipped_controls(shipped.take(i)),
    ensures
        match plan::plan_runs(req, st, range.runs@, decoded, i) {
            Ok(after) => {
                &&& after.expected_seq == range.next_seq
                &&& after.max_view == final_fence(range@, shipped)
            },
            Err(e) => is_apply_error(e),
        },
    decreases shipped.len() - i,
{
    assert(range@.runs.len() == shipped.len());
    assert(range.runs@.len() == shipped.len());
    if i == shipped.len() {
        assert(shipped.take(i) =~= shipped);
    } else {
        let (from, seed) = (range.from_seq as int, range.seed_view);
        let s = shipped[i];
        let run = range.runs@[i];
        assert(range@.runs[i] == run@);
        assert(run@ == run_of(s));
        lemma_run_decodes(run, decoded[i], s, decoder);
        let next = shipped.take(i + 1);
        assert(next.drop_last() =~= shipped.take(i));
        assert(next.last() == s);
        lemma_walked_prefix(shipped, from, seed, i + 1);
        lemma_walked_prefix(shipped, from, seed, i);
        let f = decoded[i].schema->Ok_0;
        lemma_same_decode(f, s.schema);
        lemma_frames_nonnegative(s.frames);
        let schema = s.schema.spec_decode()->Ok_0->Schema_0;
        if let Ok(pairs) = f.binding {
            lemma_bind_error(pairs@, req.world, req.codecs);
        }
        match plan::plan_schema(req, st, run, decoded[i]) {
            Err(e) => {
                assert(is_apply_error(e));
            },
            Ok(bound) => {
                let fence = views::max_u64(st.max_view, s.schema.frame.spec_stamp());
                assert(s.frames.take(0) =~= Seq::empty());
                let rest = spare + shipped_controls(shipped) - shipped_controls(next);
                assert(bound.controls_left == rest + frames_controls(s.frames));
                assert(bound.max_view == fence);
                lemma_plan_shipped_frames(
                    req,
                    bound,
                    decoded[i],
                    i as usize,
                    0,
                    s,
                    st.expected_seq as int,
                    fence,
                    rest,
                );
                if let Ok(after) = plan::plan_frames(req, bound, decoded[i], i as usize, 0) {
                    lemma_plan_shipped_runs(
                        req,
                        after,
                        range,
                        decoded,
                        i + 1,
                        shipped,
                        spare,
                        decoder,
                    );
                }
            },
        }
    }
}

proof fn lemma_run_bytes(shipped: Seq<ShippedRun>, n: int)
    requires
        0 <= n <= shipped.len(),
    ensures
        plan::run_bytes(runs_of(shipped), n) == shipped_bytes(shipped.take(n)),
        n <= shipped_controls(shipped.take(n)),
    decreases n,
{
    if n > 0 {
        lemma_run_bytes(shipped, n - 1);
        assert(shipped.take(n).drop_last() =~= shipped.take(n - 1));
        assert(shipped.take(n).last() == shipped[n - 1]);
        assert(runs_of(shipped)[n - 1] == run_of(shipped[n - 1]));
        lemma_raw_len(shipped[n - 1].frames);
        lemma_frames_nonnegative(shipped[n - 1].frames);
    } else {
        assert(shipped.take(0) =~= Seq::empty());
    }
}

/// What a source ships, a follower that stands at its start and has seen no
/// newer view takes: it may only lack a component or refuse a tick. The
/// planned records are then exactly the slots of the range.
pub proof fn law_shipped_range_is_accepted(
    w: WalView,
    limits: WalRangeLimits,
    images: Seq<SegmentImage>,
    range: WalFrameRange,
    decoded: Seq<DecodedRun>,
    restored_view: u64,
    world: WorldShape,
    codecs: Codecs,
    decoder: Decoder,
)
    requires
        ends::ascending(w.durable_ends),
        segment::images_wf(images),
        images_decoded_by(images, decoder),
        range::range_read(w, range.from_seq, limits, images) == Ok::<RangeView, WalError>(range@),
        plan::decodes_range(range, decoded),
        received_by(decoded, decoder),
        restored_view <= range.seed_view,
    ensures
        match plan::range_plan(
            range,
            decoded,
            restored_view,
            range.from_seq,
            limits,
            world,
            codecs,
        ) {
            Ok(plan) => crate::plan_laws::slots_from(
                plan.records,
                range.from_seq as int,
                range.next_seq as int,
            ),
            Err(e) => is_apply_error(e),
        },
{
    let shipped = law_range_covers_its_slots(w, range.from_seq, limits, images);
    lemma_shipped_decoded(shipped, images, decoder);
    let n = shipped.len() as int;
    assert(shipped.take(n) =~= shipped);
    lemma_run_bytes(shipped, n);
    assert(range@.runs.len() == shipped.len());
    assert(plan::head_error(range@, range.from_seq, limits) is None);
    let req = PlanRequest {
        from_seq: range.from_seq,
        next_seq: range.next_seq,
        restored_view,
        apply_from: range.from_seq,
        world,
        codecs,
    };
    let st = plan::plan_start(range, limits, world.tick);
    assert(shipped.take(0) =~= Seq::empty());
    lemma_plan_shipped_runs(
        req,
        st,
        range,
        decoded,
        0,
        shipped,
        limits.max_control_frames - shipped_controls(shipped),
        decoder,
    );
    if plan::range_plan(
        range,
        decoded,
        restored_view,
        range.from_seq,
        limits,
        world,
        codecs,
    ) is Ok {
        crate::plan_laws::law_plan_covers_missing_slots(
            range,
            decoded,
            restored_view,
            range.from_seq,
            limits,
            world,
            codecs,
        );
    }
}

/// No view below `floor` has been or will be the seed of the read.
spec fn seeded_above(req: ReadRequest, st: ReadState, floor: u64) -> bool {
    &&& st.max_view >= floor
    &&& st.range.next_seq != req.from_seq ==> st.range.seed_view >= floor
}

proof fn lemma_seed_frames(
    req: ReadRequest,
    st: ReadState,
    image: SegmentImage,
    end: u64,
    k: int,
    floor: u64,
)
    requires
        seeded_above(req, st, floor),
        req.from_seq <= st.range.next_seq,
        st.range.next_seq <= st.expected_seq || st.range.next_seq == req.from_seq,
        st.expected_seq <= req.durable_next_seq,
        0 <= k,
    ensures
        match range::read_frames(req, st, image, end, k) {
            ReadStep::Next(next) => {
                &&& seeded_above(req, next, floor)
                &&& req.from_seq <= next.range.next_seq
                &&& next.range.next_seq <= next.expected_seq || next.range.next_seq == req.from_seq
                &&& next.expected_seq <= req.durable_next_seq
            },
            ReadStep::Done(r) => r.seed_view >= floor,
            ReadStep::Fail(_) => true,
        },
    decreases image.frames@.len() - k,
{
    if range::frame_pos(image, k) < end && k < image.frames@.len() {
        if let ReadStep::Next(next) = range::read_frame(req, st, image, k) {
            lemma_seed_frames(req, next, image, end, k + 1, floor);
        }
    }
}

proof fn lemma_seed_published(
    req: ReadRequest,
    st: ReadState,
    images: Seq<SegmentImage>,
    ends: Seq<(u64, u64)>,
    i: int,
    floor: u64,
)
    requires
        seeded_above(req, st, floor),
        req.from_seq <= st.range.next_seq,
        st.range.next_seq <= st.expected_seq || st.range.next_seq == req.from_seq,
        st.expected_seq <= req.durable_next_seq,
        0 <= i,
    ensures
        range::read_published(req, st, images, ends, i) matches Ok(r) ==> r.seed_view >= floor,
    decreases ends.len() - i,
{
    if i < ends.len() {
        if let Some(at) = range::image_from(images, ends[i].0, 0) {
            let begin = ReadState { has_schema: false, run_started: false, ..st };
            lemma_seed_frames(req, begin, images[at], ends[i].1, 0, floor);
        }
        if let ReadStep::Next(next) = range::read_one(req, st, images, ends[i].0, ends[i].1) {
            lemma_seed_published(req, next, images, ends, i + 1, floor);
        }
    }
}

/// Two reads of one log that have come equally far, of which the second has
/// yet to reach its start.
spec fn trailing(a: ReadState, qb: ReadRequest, b: ReadState) -> bool {
    &&& a.expected_seq == b.expected_seq
    &&& a.max_view == b.max_view
    &&& a.has_schema == b.has_schema
    &&& b.range.next_seq == qb.from_seq
    &&& b.expected_seq <= qb.durable_next_seq
}

/// `qb` goes on where `qa` may stop.
spec fn resumes(qa: ReadRequest, a: ReadState, qb: ReadRequest) -> bool {
    &&& qa.durable_next_seq == qb.durable_next_seq
    &&& qa.active_start_seq == qb.active_start_seq
    &&& qa.from_seq <= qb.from_seq
    &&& a.expected_seq <= qa.from_seq ==> a.range.next_seq == qa.from_seq
    &&& a.expected_seq >= qa.from_seq ==> a.range.next_seq == a.expected_seq
}

proof fn lemma_expected_grows(
    q: ReadRequest,
    st: ReadState,
    image: SegmentImage,
    end: u64,
    k: int,
)
    requires
        0 <= k,
    ensures
        range::read_frames(q, st, image, end, k) matches ReadStep::Next(next) ==> st.expected_seq
            <= next.expected_seq,
    decreases image.frames@.len() - k,
{
    if range::frame_pos(image, k) < end && k < image.frames@.len() {
        if let ReadStep::Next(next) = range::read_frame(q, st, image, k) {
            lemma_expected_grows(q, next, image, end, k + 1);
        }
    }
}

/// Within a segment, the second read keeps up with the first until that stops,
/// and then goes on above the first one's peak.
proof fn lemma_trailing_frames(
    qa: ReadRequest,
    a: ReadState,
    qb: ReadRequest,
    b: ReadState,
    image: SegmentImage,
    end: u64,
    k: int,
)
    requires
        trailing(a, qb, b),
        resumes(qa, a, qb),
        0 <= k,
        match range::read_frames(qa, a, image, end, k) {
            ReadStep::Next(next) => next.expected_seq <= qb.from_seq,
            ReadStep::Done(r) => r.next_seq == qb.from_seq,
            ReadStep::Fail(_) => false,
        },
    ensures
        match range::read_frames(qa, a, image, end, k) {
            ReadStep::Next(next) => {
                &&& resumes(qa, next, qb)
                &&& range::read_frames(qb, b, image, end, k) matches ReadStep::Next(second)
                    && trailing(next, qb, second)
            },
            ReadStep::Done(_) => {
                let peak = peak_frames(qa, a, image, end, k);
                match range::read_frames(qb, b, image, end, k) {
                    ReadStep::Next(second) => {
                        &&& seeded_above(qb, second, peak)
                        &&& qb.from_seq <= second.range.next_seq
                        &&& second.range.next_seq <= second.expected_seq
                            || second.range.next_seq == qb.from_seq
                        &&& second.expected_seq <= qb.durable_next_seq
                    },
                    ReadStep::Done(r) => r.seed_view >= peak,
                    ReadStep::Fail(_) => true,
                }
            },
            ReadStep::Fail(_) => true,
        },
    decreases image.frames@.len() - k,
{
    if range::frame_pos(image, k) < end {
        match range::read_frame(qa, a, image, k) {
            ReadStep::Next(next) => {
                if range::read_frames(qa, next, image, end, k + 1) is Next {
                    lemma_expected_grows(qa, next, image, end, k + 1);
                } else {
                    lemma_done_behind(qa, next, qb, image, end, k + 1);
                }
                let second = range::read_frame(qb, b, image, k)->Next_0;
                assert(range::read_frame(qb, b, image, k) is Next);
                lemma_trailing_frames(qa, next, qb, second, image, end, k + 1);
            },
            ReadStep::Done(r) => {
                let peak = stop_view(a, r, image, k);
                if let ReadStep::Next(second) = range::read_frame(qb, b, image, k) {
                    assert(seeded_above(qb, second, peak));
                    lemma_seed_frames(qb, second, image, end, k + 1, peak);
                }
            },
            ReadStep::Fail(_) => {},
        }
    }
}

/// A read that stops further on has not come past where it stops.
proof fn lemma_done_behind(
    qa: ReadRequest,
    a: ReadState,
    qb: ReadRequest,
    image: SegmentImage,
    end: u64,
    k: int,
)
    requires
        resumes(qa, a, qb),
        0 <= k,
        range::read_frames(qa, a, image, end, k) matches ReadStep::Done(r) && r.next_seq
            == qb.from_seq,
    ensures
        a.expected_seq <= qb.from_seq,
    decreases image.frames@.len() - k,
{
    if range::frame_pos(image, k) < end {
        if let ReadStep::Next(next) = range::read_frame(qa, a, image, k) {
            lemma_done_behind(qa, next, qb, image, end, k + 1);
        }
    }
}

/// A read that ends further on has not come past where it ends.
proof fn lemma_end_behind(
    qa: ReadRequest,
    a: ReadState,
    qb: ReadRequest,
    images: Seq<SegmentImage>,
    ends: Seq<(u64, u64)>,
    i: int,
)
    requires
        resumes(qa, a, qb),
        qb.from_seq <= qb.durable_next_seq,
        0 <= i,
        range::read_published(qa, a, images, ends, i) matches Ok(r) && r.next_seq == qb.from_seq,
    ensures
        a.expected_seq <= qb.from_seq,
    decreases ends.len() - i,
{
    if i < ends.len() {
        let begin = ReadState { has_schema: false, run_started: false, ..a };
        let at = range::image_from(images, ends[i].0, 0)->Some_0;
        match range::read_one(qa, a, images, ends[i].0, ends[i].1) {
            ReadStep::Next(next) => {
                lemma_resumes_frames(qa, begin, qb, images[at], ends[i].1, 0);
                lemma_end_behind(qa, next, qb, images, ends, i + 1);
                lemma_expected_grows(qa, begin, images[at], ends[i].1, 0);
            },
            ReadStep::Done(_) => {
                lemma_done_behind(qa, begin, qb, images[at], ends[i].1, 0);
            },
            ReadStep::Fail(_) => {},
        }
    }
}

proof fn lemma_resumes_frames(
    qa: ReadRequest,
    a: ReadState,
    qb: ReadRequest,
    image: SegmentImage,
    end: u64,
    k: int,
)
    requires
        resumes(qa, a, qb),
        0 <= k,
    ensures
        range::read_frames(qa, a, image, end, k) matches ReadStep::Next(next) ==> resumes(
            qa,
            next,
            qb,
        ),
    decreases image.frames@.len() - k,
{
    if range::frame_pos(image, k) < end && k < image.frames@.len() {
        if let ReadStep::Next(next) = range::read_frame(qa, a, image, k) {
            lemma_resumes_frames(qa, next, qb, image, end, k + 1);
        }
    }
}

proof fn lemma_trailing_published(
    qa: ReadRequest,
    a: ReadState,
    qb: ReadRequest,
    b: ReadState,
    images: Seq<SegmentImage>,
    ends: Seq<(u64, u64)>,
    i: int,
)
    requires
        trailing(a, qb, b),
        resumes(qa, a, qb),
        qb.from_seq <= qb.durable_next_seq,
        0 <= i,
        range::read_published(qa, a, images, ends, i) matches Ok(r) && r.next_seq == qb.from_seq,
    ensures
        range::read_published(qb, b, images, ends, i) matches Ok(r) ==> r.seed_view
            >= peak_published(qa, a, images, ends, i),
    decreases ends.len() - i,
{
    if i < ends.len() {
        let begin_a = ReadState { has_schema: false, run_started: false, ..a };
        let begin_b = ReadState { has_schema: false, run_started: false, ..b };
        let at = range::image_from(images, ends[i].0, 0)->Some_0;
        match range::read_one(qa, a, images, ends[i].0, ends[i].1) {
            ReadStep::Next(next) => {
                lemma_resumes_frames(qa, begin_a, qb, images[at], ends[i].1, 0);
                lemma_end_behind(qa, next, qb, images, ends, i + 1);
                lemma_trailing_frames(qa, begin_a, qb, begin_b, images[at], ends[i].1, 0);
                let second = range::read_one(qb, b, images, ends[i].0, ends[i].1)->Next_0;
                lemma_trailing_published(qa, next, qb, second, images, ends, i + 1);
            },
            ReadStep::Done(_) => {
                lemma_trailing_frames(qa, begin_a, qb, begin_b, images[at], ends[i].1, 0);
                if let ReadStep::Next(second) = range::read_one(
                    qb,
                    b,
                    images,
                    ends[i].0,
                    ends[i].1,
                ) {
                    let peak = peak_frames(qa, begin_a, images[at], ends[i].1, 0);
                    lemma_seed_published(qb, second, images, ends, i + 1, peak);
                }
            },
            ReadStep::Fail(_) => {},
        }
    }
}

/// Ranges read one after another resume: the view in which the first leaves a
/// follower is no newer than the seed of the one read where it ends, so that
/// one is not refused as stale.
pub proof fn law_next_range_resumes(
    w: WalView,
    limits: WalRangeLimits,
    next_limits: WalRangeLimits,
    images: Seq<SegmentImage>,
    range: WalFrameRange,
    decoded: Seq<DecodedRun>,
    restored_view: u64,
    world: WorldShape,
    codecs: Codecs,
    decoder: Decoder,
)
    requires
        ends::ascending(w.durable_ends),
        segment::images_wf(images),
        images_decoded_by(images, decoder),
        range::range_read(w, range.from_seq, limits, images) == Ok::<RangeView, WalError>(range@),
        range::range_read(w, range.next_seq, next_limits, images) is Ok,
        plan::decodes_range(range, decoded),
        received_by(decoded, decoder),
        restored_view <= range.seed_view,
    ensures
        plan::range_plan(
            range,
            decoded,
            restored_view,
            range.from_seq,
            limits,
            world,
            codecs,
        ) matches Ok(plan) ==> plan.max_view <= range::range_read(
            w,
            range.next_seq,
            next_limits,
            images,
        )->Ok_0.seed_view,
{
    let qa = range::request_of(w, range.from_seq, limits);
    let a = range::read_start(range.from_seq, limits);
    let qb = range::request_of(w, range.next_seq, next_limits);
    let b = range::read_start(range.next_seq, next_limits);
    let none = Seq::<ShippedRun>::empty();
    assert(runs_of(none) =~= Seq::empty());
    let mutations = log_mutations(images, w.durable_ends, 0);
    let log = Log { images, mutations };
    assert(mutations.skip(0) =~= mutations);
    assert(read_inv(qa, a, none, limits, log));
    let shipped = lemma_read_published(
        qa,
        a,
        none,
        images,
        w.durable_ends,
        0,
        limits,
        log,
    );
    lemma_shipped_decoded(shipped, images, decoder);
    lemma_trailing_published(qa, a, qb, b, images, w.durable_ends, 0);
    let n = shipped.len() as int;
    assert(shipped.take(n) =~= shipped);
    assert(shipped.take(0) =~= Seq::empty());
    let req = PlanRequest {
        from_seq: range.from_seq,
        next_seq: range.next_seq,
        restored_view,
        apply_from: range.from_seq,
        world,
        codecs,
    };
    let st = plan::plan_start(range, limits, world.tick);
    lemma_plan_shipped_runs(
        req,
        st,
        range,
        decoded,
        0,
        shipped,
        limits.max_control_frames - shipped_controls(shipped),
        decoder,
    );
    lemma_walked_prefix(shipped, range.from_seq as int, range.seed_view, n);
}

/// Frames laid end to end, split in two.
proof fn lemma_raw_joined(a: Seq<DecodedFrame>, b: Seq<DecodedFrame>)
    ensures
        raw_concat(a + b) == raw_concat(a) + raw_concat(b),
{
    lemma_raw_split(a + b, a.len() as int);
    assert((a + b).take(a.len() as int) =~= a);
    assert((a + b).skip(a.len() as int) =~= b);
}

/// Paging loses, repeats and reorders nothing: under any limits, the mutations
/// of a range followed by those of the range read where it ends are those of
/// one range over both, frame by frame and byte for byte.
pub proof fn law_pages_join(
    w: WalView,
    from_seq: u64,
    first_limits: WalRangeLimits,
    second_limits: WalRangeLimits,
    whole_limits: WalRangeLimits,
    images: Seq<SegmentImage>,
) -> (pages: (Seq<ShippedRun>, Seq<ShippedRun>, Seq<ShippedRun>))
    requires
        ends::ascending(w.durable_ends),
        segment::images_wf(images),
        range::range_read(w, from_seq, first_limits, images) matches Ok(r1)
            && range::range_read(w, r1.next_seq, second_limits, images) matches Ok(r2)
            && range::range_read(w, from_seq, whole_limits, images) matches Ok(r) && r.next_seq
            == r2.next_seq,
    ensures
        ({
            let r1 = range::range_read(w, from_seq, first_limits, images)->Ok_0;
            let r2 = range::range_read(w, r1.next_seq, second_limits, images)->Ok_0;
            let r = range::range_read(w, from_seq, whole_limits, images)->Ok_0;
            let (first, second, whole) = pages;
            &&& is_shipment(r1, first, first_limits)
            &&& is_shipment(r2, second, second_limits)
            &&& is_shipment(r, whole, whole_limits)
            &&& shipped_mutations(first) + shipped_mutations(second) == shipped_mutations(whole)
            &&& raw_concat(shipped_mutations(first)) + raw_concat(shipped_mutations(second))
                == raw_concat(shipped_mutations(whole))
        }),
{
    let r1 = range::range_read(w, from_seq, first_limits, images)->Ok_0;
    let r2 = range::range_read(w, r1.next_seq, second_limits, images)->Ok_0;
    let first = law_range_covers_its_slots(w, from_seq, first_limits, images);
    let second = law_range_covers_its_slots(w, r1.next_seq, second_limits, images);
    let whole = law_range_covers_its_slots(w, from_seq, whole_limits, images);
    let log = log_mutations(images, w.durable_ends, 0);
    let (a, b, c) = (from_seq as int, r1.next_seq as int, r2.next_seq as int);
    assert(log.subrange(a, b) + log.subrange(b, c) =~= log.subrange(a, c));
    lemma_raw_joined(shipped_mutations(first), shipped_mutations(second));
    (first, second, whole)
}

/// Where the `n`-th page starts when each is read where the one before ends,
/// under its own limits.
pub open spec fn page_start(
    w: WalView,
    from_seq: u64,
    limits: Seq<WalRangeLimits>,
    images: Seq<SegmentImage>,
    n: int,
) -> u64
    decreases n,
{
    if n <= 0 {
        from_seq
    } else {
        let start = page_start(w, from_seq, limits, images, n - 1);
        range::range_read(w, start, limits[n - 1], images)->Ok_0.next_seq
    }
}

/// The `n`-th page.
pub open spec fn page(
    w: WalView,
    from_seq: u64,
    limits: Seq<WalRangeLimits>,
    images: Seq<SegmentImage>,
    n: int,
) -> Result<RangeView, WalError> {
    range::range_read(w, page_start(w, from_seq, limits, images, n), limits[n], images)
}

/// The mutations of the pages, in order.
pub open spec fn page_mutations(pages: Seq<Seq<ShippedRun>>) -> Seq<DecodedFrame>
    decreases pages.len(),
{
    if pages.len() == 0 {
        Seq::empty()
    } else {
        page_mutations(pages.drop_last()) + shipped_mutations(pages.last())
    }
}

/// Any number of pages, under any limits, together hold exactly the log's own
/// mutations between the start of the first and the end of the last, in order.
#[verifier::rlimit(60)]
pub proof fn law_all_pages_join(
    w: WalView,
    from_seq: u64,
    limits: Seq<WalRangeLimits>,
    images: Seq<SegmentImage>,
    n: int,
) -> (pages: Seq<Seq<ShippedRun>>)
    requires
        ends::ascending(w.durable_ends),
        segment::images_wf(images),
        from_seq <= log_mutations(images, w.durable_ends, 0).len(),
        0 <= n <= limits.len(),
        forall|i: int| 0 <= i < n ==> (#[trigger] page(w, from_seq, limits, images, i)) is Ok,
    ensures
        pages.len() == n,
        forall|i: int|
            0 <= i < n ==> is_shipment(
                #[trigger] page(w, from_seq, limits, images, i)->Ok_0,
                pages[i],
                limits[i],
            ),
        ({
            let log = log_mutations(images, w.durable_ends, 0);
            let end = page_start(w, from_seq, limits, images, n);
            &&& from_seq <= end <= log.len()
            &&& page_mutations(pages) == log.subrange(from_seq as int, end as int)
        }),
    decreases n,
{
    let log = log_mutations(images, w.durable_ends, 0);
    if n == 0 {
        assert(log.subrange(from_seq as int, from_seq as int) =~= Seq::empty());
        Seq::empty()
    } else {
        let before = law_all_pages_join(w, from_seq, limits, images, n - 1);
        let start = page_start(w, from_seq, limits, images, n - 1);
        assert(page(w, from_seq, limits, images, n - 1) is Ok);
        let last = law_range_covers_its_slots(w, start, limits[n - 1], images);
        let pages = before.push(last);
        let end = page_start(w, from_seq, limits, images, n);
        assert(pages.drop_last() =~= before);
        assert(log.subrange(from_seq as int, start as int) + log.subrange(
            start as int,
            end as int,
        ) =~= log.subrange(from_seq as int, end as int));
        assert forall|i: int| 0 <= i < n implies is_shipment(
            #[trigger] page(w, from_seq, limits, images, i)->Ok_0,
            pages[i],
            limits[i],
        ) by {
            if i < n - 1 {
                assert(pages[i] == before[i]);
            }
        }
        pages
    }
}

/// The limits leave room for the record at `from_seq` and its schema, wherever
/// it stands.
pub open spec fn room_for(
    images: Seq<SegmentImage>,
    from_seq: u64,
    limits: WalRangeLimits,
) -> bool {
    forall|i: int, k: int|
        #![trigger images[i].frames@[k]]
        0 <= i < images.len() && 0 <= k < images[i].frames@.len() && (
        images[i].frames@[k].spec_decode() matches Ok(WalEntry::Mutations(record)) && record.seq
            == from_seq) ==> 32 + images[i].frames@[0].frame@.payload.len()
            + images[i].frames@[k].frame@.payload.len() <= limits.max_bytes
}

/// Nothing was shipped, or nothing counts against the limits any more.
spec fn unspent(req: ReadRequest, st: ReadState, limits: WalRangeLimits) -> bool {
    &&& st.range.next_seq == req.from_seq ==> {
        &&& st.bytes_left == limits.max_bytes
        &&& st.controls_left == limits.max_control_frames
        &&& !st.run_started
        &&& st.expected_seq <= req.from_seq
    }
    &&& st.range.next_seq >= req.from_seq
    &&& st.expected_seq <= req.from_seq ==> st.range.next_seq == req.from_seq
    &&& st.expected_seq >= req.from_seq ==> st.range.next_seq == st.expected_seq
    &&& st.expected_seq <= req.durable_next_seq
}

proof fn lemma_room_frames(
    req: ReadRequest,
    st: ReadState,
    images: Seq<SegmentImage>,
    at: int,
    end: u64,
    k: int,
    limits: WalRangeLimits,
)
    requires
        0 <= at < images.len(),
        room_for(images, req.from_seq, limits),
        limits.max_control_frames > 0,
        unspent(req, st, limits),
        0 <= k,
    ensures
        match range::read_frames(req, st, images[at], end, k) {
            ReadStep::Next(next) => unspent(req, next, limits),
            ReadStep::Done(r) => r.next_seq > req.from_seq,
            ReadStep::Fail(e) => !(e is RangeLimitTooSmall),
        },
    decreases images[at].frames@.len() - k,
{
    let image = images[at];
    if range::frame_pos(image, k) < end && k < image.frames@.len() {
        assert(images[at].frames@[k] == image.frames@[k]);
        if let ReadStep::Next(next) = range::read_frame(req, st, image, k) {
            lemma_room_frames(req, next, images, at, end, k + 1, limits);
        }
    }
}

proof fn lemma_room_published(
    req: ReadRequest,
    st: ReadState,
    images: Seq<SegmentImage>,
    ends: Seq<(u64, u64)>,
    i: int,
    limits: WalRangeLimits,
)
    requires
        room_for(images, req.from_seq, limits),
        limits.max_control_frames > 0,
        unspent(req, st, limits),
        0 <= i,
    ensures
        match range::read_published(req, st, images, ends, i) {
            Ok(r) => req.from_seq < req.durable_next_seq ==> r.next_seq > req.from_seq,
            Err(e) => !(e is RangeLimitTooSmall),
        },
    decreases ends.len() - i,
{
    if i < ends.len() {
        lemma_image_from(images, ends[i].0, 0);
        if let Some(at) = range::image_from(images, ends[i].0, 0) {
            let begin = ReadState { has_schema: false, run_started: false, ..st };
            lemma_room_frames(req, begin, images, at, ends[i].1, 0, limits);
        }
        if let ReadStep::Next(next) = range::read_one(req, st, images, ends[i].0, ends[i].1) {
            lemma_room_published(req, next, images, ends, i + 1, limits);
        }
    }
}

/// Limits with room for the first record and its schema are never too small,
/// and what is read then starts with that record.
pub proof fn law_fitting_limits_make_progress(
    w: WalView,
    from_seq: u64,
    limits: WalRangeLimits,
    images: Seq<SegmentImage>,
)
    requires
        room_for(images, from_seq, limits),
    ensures
        match range::range_read(w, from_seq, limits, images) {
            Ok(r) => from_seq < w.durable_next_seq ==> r.next_seq > from_seq,
            Err(e) => !(e is RangeLimitTooSmall),
        },
{
    if limits.positive() && from_seq <= w.durable_next_seq {
        let req = range::request_of(w, from_seq, limits);
        let st = range::read_start(from_seq, limits);
        lemma_room_published(req, st, images, w.durable_ends, 0, limits);
    }
}

/// A request is refused for a limit of zero, for a position that is not durable
/// yet or not there any more, and by a log that no longer holds its prefix.
pub proof fn law_request_is_within_reach(
    w: WalView,
    from_seq: u64,
    limits: WalRangeLimits,
    images: Seq<SegmentImage>,
)
    ensures
        ({
            let r = range::range_read(w, from_seq, limits, images);
            let zero = limits.max_records == 0 || limits.max_bytes == 0
                || limits.max_control_frames == 0;
            &&& zero ==> r == Err::<RangeView, WalError>(WalError::InvalidRangeLimits)
            &&& !zero && from_seq > w.durable_next_seq ==> r == Err::<RangeView, WalError>(
                WalError::RangeAhead { requested: from_seq, durable_tail: w.durable_next_seq },
            )
            &&& !zero && from_seq <= w.durable_next_seq && w.durable_ends.len() > 0 && from_seq
                < w.durable_ends[0].0 ==> r == Err::<RangeView, WalError>(
                WalError::CursorBehind { requested: from_seq, oldest: w.durable_ends[0].0 },
            )
            &&& !zero && w.durable_ends.len() > 0 && 0 < w.durable_ends[0].0 <= from_seq
                <= w.durable_next_seq ==> r == Err::<RangeView, WalError>(
                WalError::MissingFenceContext { oldest: w.durable_ends[0].0 },
            )
            &&& r is Ok ==> !zero && from_seq <= w.durable_next_seq && w.durable_ends.len() > 0
                && w.durable_ends[0].0 == 0
        }),
{
}

/// A read stops at a frame that leaves the history open: one that does not
/// decode, a stale one that is a mutation or stands in the active segment, a
/// mutation other than the next one or not published, a schema elsewhere than
/// at the start of its segment, or anything before a schema.
pub proof fn law_read_stops_where_history_is_open(
    req: ReadRequest,
    st: ReadState,
    image: SegmentImage,
    k: int,
)
    ensures
        ({
            let f = image.frames@[k];
            let view = f.frame.spec_stamp();
            let step = range::read_frame(req, st, image, k);
            match f.spec_decode() {
                Err(e) => step == ReadStep::Fail(e),
                Ok(entry) => {
                    &&& view < st.max_view && (entry is Mutations || image.start_seq
                        == req.active_start_seq) ==> (step matches ReadStep::Fail(
                        WalError::UnresolvedHistory { seq, .. },
                    ) && seq == st.expected_seq)
                    &&& entry matches WalEntry::Mutations(record) ==> (record.seq != st.expected_seq
                        || record.seq >= req.durable_next_seq || !st.has_schema ==> step is Fail)
                    &&& entry is Schema && (st.has_schema || f.frame.offset != 4) ==> step is Fail
                    &&& entry is Checkpoint && !st.has_schema ==> step is Fail
                    &&& step matches ReadStep::Next(next) ==> {
                        &&& next.max_view >= view && next.max_view >= st.max_view
                        &&& next.max_view == view || next.max_view == st.max_view
                        &&& next.expected_seq == st.expected_seq + (if entry is Mutations {
                            1int
                        } else {
                            0int
                        }) || st.expected_seq == u64::MAX
                        &&& next.has_schema == (st.has_schema || entry is Schema)
                    }
                },
            }
        }),
{
}

/// A published segment is read only where it starts at the next number, its
/// file is there, and it is of this format.
pub proof fn law_read_needs_every_published_segment(
    req: ReadRequest,
    st: ReadState,
    images: Seq<SegmentImage>,
    start: u64,
    end: u64,
)
    ensures
        ({
            let step = range::read_one(req, st, images, start, end);
            &&& start != st.expected_seq ==> (step matches ReadStep::Fail(
                WalError::UnresolvedHistory { seq, .. },
            ) && seq == st.expected_seq)
            &&& start == st.expected_seq && (forall|i: int|
                0 <= i < images.len() ==> (#[trigger] images[i]).start_seq != start) ==> step
                == ReadStep::Fail(WalError::Io(IoError::NotFound))
            &&& !(step is Fail) ==> start == st.expected_seq && exists|i: int|
                0 <= i < images.len() && (#[trigger] images[i]).start_seq == start
                    && images[i].meta.magic == SegmentMagic::Valid
        }),
{
    lemma_image_from(images, start, 0);
    if forall|i: int| 0 <= i < images.len() ==> (#[trigger] images[i]).start_seq != start {
        if let Some(at) = range::image_from(images, start, 0) {
            assert(images[at].start_seq == start);
        }
    }
}

/// A read that runs out of published segments before the durable tail fails:
/// what was published is missing.
pub proof fn law_missing_tail_is_noticed(
    req: ReadRequest,
    st: ReadState,
    images: Seq<SegmentImage>,
    ends: Seq<(u64, u64)>,
)
    ensures
        st.expected_seq != req.durable_next_seq ==> (range::read_published(
            req,
            st,
            images,
            ends,
            ends.len() as int,
        ) matches Err(WalError::UnresolvedHistory { seq, .. }) && seq == st.expected_seq),
        st.expected_seq == req.durable_next_seq ==> range::read_published(
            req,
            st,
            images,
            ends,
            ends.len() as int,
        ) is Ok,
{
}

} // verus!
