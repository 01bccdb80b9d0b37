//! Laws on which frames of a log a range holds, and under which seed.
use crate::ends;
use crate::frame::DecodedFrame;
use crate::range;
use crate::range::{RangeView, ReadRequest, ReadState, ReadStep, RunView, WalRangeLimits};
use crate::range_laws;
use crate::record::WalEntry;
use crate::segment;
use crate::segment::SegmentImage;
use crate::wal::WalView;
use vstd::prelude::*;

verus! {

/// The frames that `image` publishes up to `end`, from frame `k` on.
pub open spec fn published_frames(image: SegmentImage, end: u64, k: int) -> Seq<DecodedFrame>
    decreases image.frames@.len() - k,
{
    if 0 <= k < image.frames@.len() && image.frames@[k].frame.offset < end
        && image.frames@[k].frame.spec_end() <= end {
        seq![image.frames@[k]] + published_frames(image, end, k + 1)
    } else {
        Seq::empty()
    }
}

/// The frames that a log publishes, from its `i`-th segment on.
pub open spec fn log_frames(images: Seq<SegmentImage>, ends: Seq<(u64, u64)>, i: int) -> Seq<
    DecodedFrame,
>
    decreases ends.len() - i,
{
    if 0 <= i < ends.len() {
        let here = match range::image_from(images, ends[i].0, 0) {
            Some(at) => published_frames(images[at], ends[i].1, 0),
            None => Seq::empty(),
        };
        here + log_frames(images, ends, i + 1)
    } else {
        Seq::empty()
    }
}

/// The number of mutations among `frames`.
pub open spec fn mutation_count(frames: Seq<DecodedFrame>) -> nat
    decreases frames.len(),
{
    if frames.len() == 0 {
        0
    } else if range_laws::is_mutation(frames.last()) {
        mutation_count(frames.drop_last()) + 1
    } else {
        mutation_count(frames.drop_last())
    }
}

/// The views of `frames`, in order.
pub open spec fn views_of(frames: Seq<DecodedFrame>) -> Seq<u64> {
    Seq::new(frames.len(), |i: int| frames[i].frame.spec_stamp())
}

/// The frames without the schemas, in order.
pub open spec fn without_schemas(frames: Seq<DecodedFrame>) -> Seq<DecodedFrame>
    decreases frames.len(),
{
    if frames.len() == 0 {
        Seq::empty()
    } else if frames.last().spec_decode() matches Ok(WalEntry::Schema(_)) {
        without_schemas(frames.drop_last())
    } else {
        without_schemas(frames.drop_last()).push(frames.last())
    }
}

/// The frame buffers of the runs, end to end.
pub open spec fn run_buffers(runs: Seq<RunView>) -> Seq<u8>
    decreases runs.len(),
{
    if runs.len() == 0 {
        Seq::empty()
    } else {
        run_buffers(runs.drop_last()) + runs.last().frames
    }
}

/// The range holds the frames `log[c..n]` but for their schemas, in the bytes
/// that were written. The first is the mutation numbered `from_seq`; the seed is
/// the highest view before it.
pub open spec fn holds_frames(r: RangeView, log: Seq<DecodedFrame>, c: int, n: int) -> bool {
    &&& 0 <= c < n <= log.len()
    &&& range_laws::is_mutation(log[c])
    &&& mutation_count(log.take(c)) == r.from_seq
    &&& mutation_count(log.take(n)) == r.next_seq
    &&& r.seed_view == segment::greatest(views_of(log.take(c)))
    &&& run_buffers(r.runs) == range_laws::raw_concat(without_schemas(log.subrange(c, n)))
}

/// The range holds the frames of the log from the `c`-th on, up to some other.
spec fn holds_from(r: RangeView, log: Seq<DecodedFrame>, c: int) -> bool {
    exists|m: int| #[trigger] holds_frames(r, log, c, m)
}

spec fn holds_at(
    req: ReadRequest,
    log: Seq<DecodedFrame>,
    n: int,
    st: ReadState,
    c: int,
) -> bool {
    &&& 0 <= n <= log.len()
    &&& mutation_count(log.take(n)) == st.expected_seq
    &&& st.max_view == segment::greatest(views_of(log.take(n)))
    &&& st.range.from_seq == req.from_seq
    &&& st.range.next_seq == req.from_seq ==> st.range.runs.len() == 0
    &&& st.range.next_seq != req.from_seq ==> holds_frames(st.range, log, c, n)
    &&& st.range.next_seq >= req.from_seq
    &&& st.run_started ==> st.range.runs.len() > 0
    &&& st.expected_seq > req.from_seq ==> st.range.next_seq == st.expected_seq
    &&& st.range.next_seq != req.from_seq ==> st.range.next_seq < req.end_seq
}

/// The read stops within what is durable, and beyond its start unless that is
/// the durable tail.
spec fn is_request(req: ReadRequest) -> bool {
    &&& req.from_seq <= req.end_seq <= req.durable_next_seq
    &&& req.end_seq == req.from_seq ==> req.durable_next_seq == req.from_seq
}

proof fn lemma_one_more(log: Seq<DecodedFrame>, n: int)
    requires
        0 <= n < log.len(),
    ensures
        mutation_count(log.take(n + 1)) == mutation_count(log.take(n)) + (
        if range_laws::is_mutation(log[n]) {
            1nat
        } else {
            0nat
        }),
        segment::greatest(views_of(log.take(n + 1))) == crate::views::max_u64(
            segment::greatest(views_of(log.take(n))),
            log[n].frame.spec_stamp(),
        ),
{
    let more = log.take(n + 1);
    assert(more.drop_last() =~= log.take(n));
    assert(more.last() == log[n]);
    assert(views_of(more).drop_last() =~= views_of(log.take(n)));
    assert(views_of(more).last() == log[n].frame.spec_stamp());
}

proof fn lemma_buffers(st: ReadState, image: SegmentImage, k: int)
    requires
        st.run_started ==> st.range.runs.len() > 0,
    ensures
        run_buffers(range::runs_with(st, image, k)) == run_buffers(st.range.runs)
            + range::frame_raw(image.frames@[k]),
{
    let runs = st.range.runs;
    let raw = range::frame_raw(image.frames@[k]);
    let after = range::runs_with(st, image, k);
    if st.run_started {
        assert(after.drop_last() =~= runs.drop_last());
        assert(run_buffers(after) =~= run_buffers(runs) + raw);
    } else {
        assert(after.drop_last() =~= runs);
        assert(run_buffers(after) =~= run_buffers(runs) + raw);
    }
}

/// One more frame behind what was shipped, and its bytes behind the buffers.
proof fn lemma_shipped_one(log: Seq<DecodedFrame>, c: int, n: int)
    requires
        0 <= c <= n < log.len(),
        !(log[n].spec_decode() matches Ok(WalEntry::Schema(_))),
    ensures
        range_laws::raw_concat(without_schemas(log.subrange(c, n + 1))) == range_laws::raw_concat(
            without_schemas(log.subrange(c, n)),
        ) + range::frame_raw(log[n]),
{
    let more = log.subrange(c, n + 1);
    assert(more.drop_last() =~= log.subrange(c, n));
    assert(more.last() == log[n]);
    let held = without_schemas(more);
    assert(held.drop_last() =~= without_schemas(log.subrange(c, n)));
    assert(held.last() == log[n]);
}

proof fn lemma_schema_one(log: Seq<DecodedFrame>, c: int, n: int)
    requires
        0 <= c <= n < log.len(),
        log[n].spec_decode() matches Ok(WalEntry::Schema(_)),
    ensures
        without_schemas(log.subrange(c, n + 1)) == without_schemas(log.subrange(c, n)),
{
    let more = log.subrange(c, n + 1);
    assert(more.drop_last() =~= log.subrange(c, n));
    assert(more.last() == log[n]);
}

proof fn lemma_frame(
    req: ReadRequest,
    st: ReadState,
    image: SegmentImage,
    k: int,
    log: Seq<DecodedFrame>,
    n: int,
    c: int,
) -> (first: int)
    requires
        holds_at(req, log, n, st, c),
        0 <= k < image.frames@.len(),
        n < log.len(),
        log[n] == image.frames@[k],
        is_request(req),
    ensures
        match range::read_frame(req, st, image, k) {
            ReadStep::Next(next) => holds_at(req, log, n + 1, next, first),
            ReadStep::Done(r) => holds_from(r, log, first),
            ReadStep::Fail(_) => true,
        },
{
    let f = image.frames@[k];
    lemma_one_more(log, n);
    let step = range::read_frame(req, st, image, k);
    match f.spec_decode() {
        Ok(WalEntry::Mutations(record)) => {
            lemma_buffers(st, image, k);
            let first = if st.range.next_seq == req.from_seq {
                n
            } else {
                c
            };
            if st.range.next_seq == req.from_seq {
                assert(log.subrange(n, n) =~= Seq::empty());
                assert(without_schemas(log.subrange(n, n)) =~= Seq::empty());
                assert(range_laws::raw_concat(Seq::empty()) == Seq::<u8>::empty());
                assert(run_buffers(st.range.runs) =~= Seq::empty());
            }
            lemma_shipped_one(log, first, n);
            if let ReadStep::Done(r) = step {
                if r.next_seq == st.range.next_seq {
                    assert(holds_frames(r, log, first, n));
                } else {
                    assert(holds_frames(r, log, first, n + 1));
                }
            }
            first
        },
        Ok(WalEntry::Checkpoint { .. }) => {
            lemma_buffers(st, image, k);
            if st.range.next_seq != req.from_seq {
                lemma_shipped_one(log, c, n);
                if let ReadStep::Done(r) = step {
                    assert(holds_frames(r, log, c, n));
                }
            }
            c
        },
        Ok(WalEntry::Schema(_)) => {
            if st.range.next_seq != req.from_seq {
                lemma_schema_one(log, c, n);
            }
            c
        },
        Err(_) => c,
    }
}

proof fn lemma_frames(
    req: ReadRequest,
    st: ReadState,
    image: SegmentImage,
    end: u64,
    k: int,
    log: Seq<DecodedFrame>,
    n: int,
    c: int,
    rest: Seq<DecodedFrame>,
) -> (at: (int, int))
    requires
        image.wf(),
        0 <= k,
        holds_at(req, log, n, st, c),
        log.skip(n) == published_frames(image, end, k) + rest,
        is_request(req),
    ensures
        match range::read_frames(req, st, image, end, k) {
            ReadStep::Next(next) => holds_at(req, log, at.0, next, at.1) && log.skip(at.0) == rest,
            ReadStep::Done(r) => holds_from(r, log, at.1),
            ReadStep::Fail(_) => true,
        },
    decreases image.frames@.len() - k,
{
    let pos = range::frame_pos(image, k);
    if pos >= end {
        assert(published_frames(image, end, k) + rest =~= rest);
        (n, c)
    } else if k < image.frames@.len() && image.frames@[k].frame.spec_end() <= end {
        let f = image.frames@[k];
        let later = published_frames(image, end, k + 1);
        let ahead = seq![f] + later + rest;
        assert(published_frames(image, end, k) + rest =~= ahead);
        assert(ahead.len() > 0 && ahead[0] == f);
        assert(log.skip(n)[0] == log[n]);
        let first = lemma_frame(req, st, image, k, log, n, c);
        match range::read_frame(req, st, image, k) {
            ReadStep::Next(next) => {
                assert(log.skip(n + 1) =~= later + rest) by {
                    assert(log.skip(n + 1) =~= log.skip(n).skip(1));
                    assert((seq![f] + later + rest).skip(1) =~= later + rest);
                }
                lemma_frames(req, next, image, end, k + 1, log, n + 1, first, rest)
            },
            _ => (n, first),
        }
    } else {
        (n, c)
    }
}

proof fn lemma_published(
    req: ReadRequest,
    st: ReadState,
    images: Seq<SegmentImage>,
    ends: Seq<(u64, u64)>,
    i: int,
    log: Seq<DecodedFrame>,
    n: int,
    c: int,
) -> (at: (int, int))
    requires
        segment::images_wf(images),
        0 <= i <= ends.len(),
        holds_at(req, log, n, st, c),
        log.skip(n) == log_frames(images, ends, i),
        is_request(req),
    ensures
        range::read_published(req, st, images, ends, i) matches Ok(r) ==> {
            ||| r.next_seq == req.from_seq && r.runs.len() == 0 && r.seed_view
                == segment::greatest(views_of(log)) && mutation_count(log) == req.from_seq
            ||| holds_from(r, log, at.1)
        },
    decreases ends.len() - i,
{
    if i >= ends.len() {
        assert(log.skip(n).len() == 0);
        assert(log.take(n) =~= log);
        (n, c)
    } else {
        let (start, end) = ends[i];
        lemma_lookup(images, start, 0);
        match range::read_one(req, st, images, start, end) {
            ReadStep::Fail(_) => (n, c),
            step => {
                let a = range::image_from(images, start, 0)->Some_0;
                let begin = ReadState { has_schema: false, run_started: false, ..st };
                assert(images[a].wf());
                let at = lemma_frames(
                    req,
                    begin,
                    images[a],
                    end,
                    0,
                    log,
                    n,
                    c,
                    log_frames(images, ends, i + 1),
                );
                match step {
                    ReadStep::Next(next) => lemma_published(
                        req,
                        next,
                        images,
                        ends,
                        i + 1,
                        log,
                        at.0,
                        at.1,
                    ),
                    _ => at,
                }
            },
        }
    }
}

proof fn lemma_lookup(images: Seq<SegmentImage>, s: u64, i: int)
    ensures
        range::image_from(images, s, i) matches Some(j) ==> 0 <= j < images.len(),
    decreases images.len() - i,
{
    if 0 <= i < images.len() && images[i].start_seq != s {
        lemma_lookup(images, s, i + 1);
    }
}

/// A range holds a stretch of the log as it was written: the original bytes of
/// every frame behind the schemas, mutations and checkpoints alike and in
/// order, from the mutation asked for up to where it ends. Its seed is the
/// highest view that a frame before that mutation carries; at the tail, that
/// any frame does.
pub proof fn law_range_holds_a_stretch_of_the_log(
    w: WalView,
    from_seq: u64,
    limits: WalRangeLimits,
    images: Seq<SegmentImage>,
)
    requires
        ends::ascending(w.durable_ends),
        segment::images_wf(images),
        range::range_read(w, from_seq, limits, images) is Ok,
    ensures
        ({
            let r = range::range_read(w, from_seq, limits, images)->Ok_0;
            let log = log_frames(images, w.durable_ends, 0);
            &&& r.next_seq > from_seq ==> exists|c: int, n: int| #[trigger]
                holds_frames(r, log, c, n)
            &&& r.next_seq == from_seq ==> r.runs.len() == 0 && r.seed_view == segment::greatest(
                views_of(log),
            ) && mutation_count(log) == from_seq
        }),
{
    let req = range::request_of(w, from_seq, limits);
    let st = range::read_start(from_seq, limits);
    let log = log_frames(images, w.durable_ends, 0);
    assert(log.take(0) =~= Seq::empty());
    assert(views_of(log.take(0)) =~= Seq::empty());
    assert(log.skip(0) =~= log);
    assert(holds_at(req, log, 0, st, 0));
    let at = lemma_published(req, st, images, w.durable_ends, 0, log, 0, 0);
    let r = range::range_read(w, from_seq, limits, images)->Ok_0;
    let shipped = range_laws::law_range_covers_its_slots(w, from_seq, limits, images);
    if holds_from(r, log, at.1) {
        let m = choose|m: int| #[trigger] holds_frames(r, log, at.1, m);
        lemma_counts(log, at.1, m);
    }
}

/// A mutation in between counts.
proof fn lemma_counts(log: Seq<DecodedFrame>, c: int, n: int)
    requires
        0 <= c < n <= log.len(),
        range_laws::is_mutation(log[c]),
    ensures
        mutation_count(log.take(c)) < mutation_count(log.take(n)),
    decreases n,
{
    lemma_one_more(log, n - 1);
    if c < n - 1 {
        lemma_counts(log, c, n - 1);
    }
}

} // verus!
