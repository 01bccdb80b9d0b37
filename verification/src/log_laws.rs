//! Laws that tie range reads to the writes before them.
use crate::ends;
use crate::error::WalError;
use crate::frame;
use crate::frame::{DecodedFrame, StreamTail};
use crate::range;
use crate::range::{RangeView, ReadRequest, ReadState, ReadStep, WalRangeLimits};
use crate::range_laws;
use crate::record::{ComponentSchema, WalEntry};
use crate::recovery;
use crate::recovery::SegmentFacts;
use crate::recovery_laws;
use crate::segment;
use crate::segment::{SegmentImage, SegmentMagic};
use crate::views;
use crate::wal::{AppendIo, CleanupIo, RollIo, WalConfig, WalView};
use vstd::prelude::*;

verus! {

/// The request at the durable tail, which reads the whole log and ships
/// nothing.
pub open spec fn tail_read(w: WalView, limits: WalRangeLimits, images: Seq<SegmentImage>) -> Result<
    RangeView,
    WalError,
> {
    range::range_read(w, w.durable_next_seq, limits, images)
}

/// Two reads have come equally far.
spec fn abreast(a: ReadState, b: ReadState) -> bool {
    &&& a.expected_seq == b.expected_seq
    &&& a.max_view == b.max_view
    &&& a.has_schema == b.has_schema
}

/// A request at the tail, which has shipped nothing.
spec fn quiet(req: ReadRequest, st: ReadState) -> bool {
    &&& req.from_seq == req.durable_next_seq
    &&& req.end_seq == req.durable_next_seq
    &&& st.range.next_seq == req.from_seq
    &&& !st.run_started
}

/// `b` sees at least what `a` sees.
spec fn sees(a: ReadRequest, b: ReadRequest) -> bool {
    &&& a.durable_next_seq <= b.durable_next_seq
    &&& a.active_start_seq == b.active_start_seq
}

/// What step `b` comes to where a quiet one goes on to `next`.
spec fn follows(next: ReadState, b: ReadStep, quiet_too: bool) -> bool {
    match b {
        ReadStep::Next(st) => abreast(next, st),
        ReadStep::Done(_) => !quiet_too,
        ReadStep::Fail(e) => !quiet_too && e is RangeLimitTooSmall,
    }
}

proof fn lemma_frame_follows(
    qa: ReadRequest,
    a: ReadState,
    qb: ReadRequest,
    b: ReadState,
    image: SegmentImage,
    k: int,
)
    requires
        quiet(qa, a),
        sees(qa, qb),
        abreast(a, b),
        range::read_frame(qa, a, image, k) is Next,
    ensures
        ({
            let next = range::read_frame(qa, a, image, k)->Next_0;
            let step = range::read_frame(qb, b, image, k);
            &&& quiet(qa, next)
            &&& follows(next, step, quiet(qb, b))
            &&& quiet(qb, b) ==> quiet(qb, step->Next_0)
        }),
{
}

proof fn lemma_frames_follow(
    qa: ReadRequest,
    a: ReadState,
    qb: ReadRequest,
    b: ReadState,
    image: SegmentImage,
    end: u64,
    k: int,
)
    requires
        quiet(qa, a),
        sees(qa, qb),
        abreast(a, b),
        0 <= k,
        range::read_frames(qa, a, image, end, k) is Next,
    ensures
        ({
            let next = range::read_frames(qa, a, image, end, k)->Next_0;
            let step = range::read_frames(qb, b, image, end, k);
            &&& quiet(qa, next)
            &&& follows(next, step, quiet(qb, b))
            &&& quiet(qb, b) ==> quiet(qb, step->Next_0)
        }),
    decreases image.frames@.len() - k,
{
    let pos = range::frame_pos(image, k);
    if pos < end {
        lemma_frame_follows(qa, a, qb, b, image, k);
        let next = range::read_frame(qa, a, image, k)->Next_0;
        if let ReadStep::Next(nb) = range::read_frame(qb, b, image, k) {
            lemma_frames_follow(qa, next, qb, nb, image, end, k + 1);
        } else {
            lemma_frames_follow(qa, next, qa, next, image, end, k + 1);
        }
    }
}

proof fn lemma_one_follows(
    qa: ReadRequest,
    a: ReadState,
    qb: ReadRequest,
    b: ReadState,
    images: Seq<SegmentImage>,
    start: u64,
    end: u64,
)
    requires
        quiet(qa, a),
        sees(qa, qb),
        abreast(a, b),
        range::read_one(qa, a, images, start, end) is Next,
    ensures
        ({
            let next = range::read_one(qa, a, images, start, end)->Next_0;
            let step = range::read_one(qb, b, images, start, end);
            &&& quiet(qa, next)
            &&& follows(next, step, quiet(qb, b))
            &&& quiet(qb, b) ==> quiet(qb, step->Next_0)
        }),
{
    let i = range::image_from(images, start, 0)->Some_0;
    lemma_frames_follow(
        qa,
        ReadState { has_schema: false, run_started: false, ..a },
        qb,
        ReadState { has_schema: false, run_started: false, ..b },
        images[i],
        end,
        0,
    );
}

proof fn lemma_quiet_goes_on(
    q: ReadRequest,
    st: ReadState,
    images: Seq<SegmentImage>,
    ends: Seq<(u64, u64)>,
    i: int,
)
    requires
        quiet(q, st),
        0 <= i < ends.len(),
        range::read_published(q, st, images, ends, i) is Ok,
    ensures
        range::read_one(q, st, images, ends[i].0, ends[i].1) is Next,
{
    let at = range::image_from(images, ends[i].0, 0);
    if range::read_one(q, st, images, ends[i].0, ends[i].1) is Done {
        lemma_quiet_never_done(
            q,
            ReadState { has_schema: false, run_started: false, ..st },
            images[at->Some_0],
            ends[i].1,
            0,
        );
    }
}

proof fn lemma_quiet_never_done(
    q: ReadRequest,
    st: ReadState,
    image: SegmentImage,
    end: u64,
    k: int,
)
    requires
        quiet(q, st),
        0 <= k,
    ensures
        !(range::read_frames(q, st, image, end, k) is Done),
    decreases image.frames@.len() - k,
{
    if range::frame_pos(image, k) < end && k < image.frames@.len() {
        if let ReadStep::Next(next) = range::read_frame(q, st, image, k) {
            lemma_quiet_never_done(q, next, image, end, k + 1);
        }
    }
}

proof fn lemma_published_follows(
    qa: ReadRequest,
    a: ReadState,
    qb: ReadRequest,
    b: ReadState,
    images: Seq<SegmentImage>,
    ends: Seq<(u64, u64)>,
    i: int,
)
    requires
        quiet(qa, a),
        sees(qa, qb),
        qb.durable_next_seq == qa.durable_next_seq,
        abreast(a, b),
        0 <= i,
        range::read_published(qa, a, images, ends, i) is Ok,
    ensures
        range::read_published(qb, b, images, ends, i) matches Err(e) ==> e is RangeLimitTooSmall,
    decreases ends.len() - i,
{
    if i < ends.len() {
        lemma_quiet_goes_on(qa, a, images, ends, i);
        lemma_one_follows(qa, a, qb, b, images, ends[i].0, ends[i].1);
        let next = range::read_one(qa, a, images, ends[i].0, ends[i].1)->Next_0;
        if let ReadStep::Next(nb) = range::read_one(qb, b, images, ends[i].0, ends[i].1) {
            lemma_published_follows(qa, next, qb, nb, images, ends, i + 1);
        }
    }
}

/// A log whose tail can be read can be read from any of its sequence numbers:
/// only limits too small for the first record and its schema stand in the way.
pub proof fn law_readable_tail_serves_any_position(
    w: WalView,
    from_seq: u64,
    tail_limits: WalRangeLimits,
    limits: WalRangeLimits,
    images: Seq<SegmentImage>,
)
    requires
        tail_read(w, tail_limits, images) is Ok,
        limits.positive(),
        from_seq <= w.durable_next_seq,
    ensures
        range::range_read(w, from_seq, limits, images) matches Err(e) ==> e is RangeLimitTooSmall,
{
    let qa = range::request_of(w, w.durable_next_seq, tail_limits);
    let a = range::read_start(w.durable_next_seq, tail_limits);
    let qb = range::request_of(w, from_seq, limits);
    let b = range::read_start(from_seq, limits);
    assert(qa.end_seq == qa.durable_next_seq);
    lemma_published_follows(qa, a, qb, b, images, w.durable_ends, 0);
}

/// The log is in step with its files: the active segment is the last one
/// published, published as far as it holds frames, and new frames are stamped
/// with no view older than any in the log. Its tail can be read.
pub open spec fn in_step(w: WalView, limits: WalRangeLimits, images: Seq<SegmentImage>) -> bool {
    &&& w.wf()
    &&& w.durable_next_seq == w.next_seq
    &&& w.durable_ends.len() > 0
    &&& w.durable_ends.last() == (w.active_start_seq, w.active_bytes)
    &&& range::image_from(images, w.active_start_seq, 0) matches Some(i)
        && images[i].meta.end == w.active_bytes
    &&& tail_read(w, limits, images) matches Ok(r) && r.seed_view <= w.view
}

/// `b` is `a` with one more frame at its end.
pub open spec fn extends(a: SegmentImage, b: SegmentImage, f: DecodedFrame) -> bool {
    &&& b.start_seq == a.start_seq
    &&& b.meta.magic == a.meta.magic
    &&& b.frames@ == a.frames@.push(f)
    &&& f.frame.offset == a.meta.end
    &&& f.frame.spec_end() == b.meta.end
}

/// `after` are the files `before` with `f` added to segment `start`.
pub open spec fn grown(
    before: Seq<SegmentImage>,
    after: Seq<SegmentImage>,
    start: u64,
    f: DecodedFrame,
) -> bool {
    &&& after.len() == before.len()
    &&& range::image_from(before, start, 0) matches Some(i) && extends(before[i], after[i], f)
        && forall|j: int| 0 <= j < before.len() && j != i ==> after[j] == before[j]
}

proof fn lemma_grown_lookup(
    before: Seq<SegmentImage>,
    after: Seq<SegmentImage>,
    start: u64,
    f: DecodedFrame,
    s: u64,
    i: int,
)
    requires
        grown(before, after, start, f),
        0 <= i,
    ensures
        range::image_from(after, s, i) == range::image_from(before, s, i),
    decreases before.len() - i,
{
    if i < before.len() {
        assert(after[i].start_seq == before[i].start_seq);
        lemma_grown_lookup(before, after, start, f, s, i + 1);
    }
}

proof fn lemma_lookup(images: Seq<SegmentImage>, s: u64, i: int)
    ensures
        range::image_from(images, s, i) matches Some(j) ==> 0 <= j < images.len()
            && images[j].start_seq == s,
    decreases images.len() - i,
{
    if 0 <= i < images.len() && images[i].start_seq != s {
        lemma_lookup(images, s, i + 1);
    }
}

/// Over the frames it had, a grown segment reads as before.
proof fn lemma_grown_frames(
    qa: ReadRequest,
    a: ReadState,
    qb: ReadRequest,
    b: ReadState,
    before: SegmentImage,
    after: SegmentImage,
    f: DecodedFrame,
    k: int,
)
    requires
        before.wf(),
        extends(before, after, f),
        quiet(qa, a),
        quiet(qb, b),
        sees(qa, qb),
        abreast(a, b),
        0 <= k <= before.frames@.len(),
        range::read_frames(qa, a, before, before.meta.end, k) is Next,
    ensures
        ({
            let next = range::read_frames(qa, a, before, before.meta.end, k)->Next_0;
            exists|st: ReadState|
                #![trigger quiet(qb, st)]
                quiet(qb, st) && abreast(next, st) && next.has_schema && range::read_frames(
                    qb,
                    b,
                    after,
                    after.meta.end,
                    k,
                ) == range::read_frames(
                    qb,
                    st,
                    after,
                    after.meta.end,
                    before.frames@.len() as int,
                )
        }),
    decreases before.frames@.len() - k,
{
    let n = before.frames@.len() as int;
    let raws = frame::raw_frames(before.frames@);
    if k == n {
        assert(quiet(qb, b));
    } else {
        frame::lemma_contiguous_index(raws, 4, before.meta.end as int, k);
        assert(after.frames@[k] == before.frames@[k]);
        assert(after.frames@[0] == before.frames@[0]);
        lemma_frame_follows(qa, a, qb, b, before, k);
        let next = range::read_frame(qa, a, before, k)->Next_0;
        let nb = range::read_frame(qb, b, before, k)->Next_0;
        assert(range::read_frame(qb, b, after, k) == range::read_frame(qb, b, before, k));
        lemma_grown_frames(qa, next, qb, nb, before, after, f, k + 1);
    }
}

/// A log reads on over a grown active segment.
proof fn lemma_grown_published(
    qa: ReadRequest,
    a: ReadState,
    qb: ReadRequest,
    b: ReadState,
    before: Seq<SegmentImage>,
    after: Seq<SegmentImage>,
    ends_a: Seq<(u64, u64)>,
    ends_b: Seq<(u64, u64)>,
    f: DecodedFrame,
    i: int,
)
    requires
        segment::images_wf(before),
        quiet(qa, a),
        quiet(qb, b),
        sees(qa, qb),
        abreast(a, b),
        0 <= i < ends_a.len(),
        ends::ascending(ends_a),
        ends_b == ends_a.drop_last().push((ends_a.last().0, f.frame.spec_end() as u64)),
        grown(before, after, ends_a.last().0, f),
        before[range::image_from(before, ends_a.last().0, 0)->Some_0].meta.end == ends_a.last().1,
        range::read_published(qa, a, before, ends_a, i) matches Ok(r) && r.seed_view
            <= f.frame.spec_stamp(),
        match f.spec_decode() {
            Ok(WalEntry::Mutations(record)) => record.seq == qa.durable_next_seq
                && qb.durable_next_seq == record.seq + 1,
            Ok(WalEntry::Checkpoint { .. }) => qb.durable_next_seq == qa.durable_next_seq,
            _ => false,
        },
    ensures
        range::read_published(qb, b, after, ends_b, i) matches Ok(r) && r.seed_view
            == f.frame.spec_stamp(),
    decreases ends_a.len() - i,
{
    let (start, end) = ends_a[i];
    lemma_grown_lookup(before, after, ends_a.last().0, f, start, 0);
    lemma_lookup(before, start, 0);
    lemma_quiet_goes_on(qa, a, before, ends_a, i);
    let at = range::image_from(before, start, 0)->Some_0;
    let next = range::read_one(qa, a, before, start, end)->Next_0;
    lemma_one_follows(qa, a, qb, b, before, start, end);
    if i + 1 < ends_a.len() {
        assert(ends_a[i].0 < ends_a[ends_a.len() - 1].0);
        lemma_lookup(before, ends_a.last().0, 0);
        assert(after[at] == before[at]);
        assert(ends_b[i] == ends_a[i]);
        assert(range::read_one(qb, b, after, start, end) == range::read_one(
            qb,
            b,
            before,
            start,
            end,
        ));
        let nb = range::read_one(qb, b, before, start, end)->Next_0;
        lemma_grown_published(qa, next, qb, nb, before, after, ends_a, ends_b, f, i + 1);
    } else {
        assert(before[at].wf());
        let sa = ReadState { has_schema: false, run_started: false, ..a };
        let sb = ReadState { has_schema: false, run_started: false, ..b };
        lemma_grown_frames(qa, sa, qb, sb, before[at], after[at], f, 0);
        let n = before[at].frames@.len() as int;
        let st = choose|st: ReadState|
            #![trigger quiet(qb, st)]
            quiet(qb, st) && abreast(next, st) && next.has_schema && range::read_frames(
                qb,
                sb,
                after[at],
                after[at].meta.end,
                0,
            ) == range::read_frames(qb, st, after[at], after[at].meta.end, n);
        let grown_end = after[at].meta.end;
        assert(ends_b[i] == (start, grown_end));
        assert(range::read_published(qa, next, before, ends_a, i + 1) is Ok);
        assert(next.expected_seq == qa.durable_next_seq);
        assert(next.max_view <= f.frame.spec_stamp());
        assert(after[at].frames@[n] == f);
        let last = range::read_frame(qb, st, after[at], n)->Next_0;
        assert(range::read_frame(qb, st, after[at], n) is Next);
        assert(range::frame_pos(after[at], n + 1) == grown_end);
        assert(range::read_frames(qb, last, after[at], grown_end, n + 1) == ReadStep::Next(last));
        assert(range::read_frames(qb, st, after[at], grown_end, n) == ReadStep::Next(last));
        assert(range::read_one(qb, b, after, start, grown_end) == ReadStep::Next(last));
        assert(ends_b.len() == ends_a.len());
        assert(last.expected_seq == qb.durable_next_seq);
        assert(last.max_view == f.frame.spec_stamp());
        assert(range::read_published(qb, last, after, ends_b, i + 1) is Ok);
    }
}

proof fn lemma_republished(w: WalView, end: u64)
    requires
        ends::ascending(w.durable_ends),
        w.durable_ends.len() > 0,
        w.durable_ends.last().0 == w.active_start_seq,
    ensures
        ends::with_end(w.durable_ends, w.active_start_seq, end)
            == w.durable_ends.drop_last().push((w.active_start_seq, end)),
        ends::ascending(ends::with_end(w.durable_ends, w.active_start_seq, end)),
{
    ends::lemma_with_end(w.durable_ends, w.active_start_seq, end);
}

proof fn lemma_expected_grows(q: ReadRequest, st: ReadState, image: SegmentImage, end: u64, k: int)
    requires
        0 <= k,
    ensures
        range::read_frames(q, st, image, end, k) matches ReadStep::Next(next) ==> st.expected_seq
            <= next.expected_seq,
    decreases image.frames@.len() - k,
{
    if range::frame_pos(image, k) < end && k < image.frames@.len() {
        if let ReadStep::Next(next) = range::read_frame(q, st, image, k) {
            lemma_expected_grows(q, next, image, end, k + 1);
        }
    }
}

/// No published segment starts past the durable tail.
proof fn lemma_starts_within(
    q: ReadRequest,
    st: ReadState,
    images: Seq<SegmentImage>,
    ends: Seq<(u64, u64)>,
    i: int,
)
    requires
        quiet(q, st),
        0 <= i <= ends.len(),
        range::read_published(q, st, images, ends, i) is Ok,
    ensures
        st.expected_seq <= q.durable_next_seq,
        i < ends.len() ==> ends.last().0 <= q.durable_next_seq,
    decreases ends.len() - i,
{
    if i < ends.len() {
        lemma_quiet_goes_on(q, st, images, ends, i);
        lemma_one_follows(q, st, q, st, images, ends[i].0, ends[i].1);
        let next = range::read_one(q, st, images, ends[i].0, ends[i].1)->Next_0;
        let at = range::image_from(images, ends[i].0, 0)->Some_0;
        let begin = ReadState { has_schema: false, run_started: false, ..st };
        lemma_expected_grows(q, begin, images[at], ends[i].1, 0);
        lemma_starts_within(q, next, images, ends, i + 1);
    }
}

/// The active segment starts no later than the next sequence number.
pub proof fn lemma_active_start(w: WalView, limits: WalRangeLimits, images: Seq<SegmentImage>)
    requires
        in_step(w, limits, images),
    ensures
        w.active_start_seq <= w.next_seq,
{
    let q = range::request_of(w, w.durable_next_seq, limits);
    let st = range::read_start(w.durable_next_seq, limits);
    lemma_starts_within(q, st, images, w.durable_ends, 0);
}

proof fn lemma_count_frames(q: ReadRequest, st: ReadState, image: SegmentImage, end: u64, k: int)
    requires
        0 <= k,
        range::read_frames(q, st, image, end, k) is Next,
    ensures
        range_laws::published_mutations(image, end, k).len() == range::read_frames(
            q,
            st,
            image,
            end,
            k,
        )->Next_0.expected_seq - st.expected_seq,
    decreases image.frames@.len() - k,
{
    if range::frame_pos(image, k) < end && k < image.frames@.len() {
        let next = range::read_frame(q, st, image, k)->Next_0;
        lemma_count_frames(q, next, image, end, k + 1);
    }
}

proof fn lemma_count_published(
    q: ReadRequest,
    st: ReadState,
    images: Seq<SegmentImage>,
    ends: Seq<(u64, u64)>,
    i: int,
)
    requires
        quiet(q, st),
        0 <= i <= ends.len(),
        range::read_published(q, st, images, ends, i) is Ok,
    ensures
        range_laws::log_mutations(images, ends, i).len() == q.durable_next_seq - st.expected_seq,
    decreases ends.len() - i,
{
    if i < ends.len() {
        lemma_quiet_goes_on(q, st, images, ends, i);
        lemma_one_follows(q, st, q, st, images, ends[i].0, ends[i].1);
        let next = range::read_one(q, st, images, ends[i].0, ends[i].1)->Next_0;
        let at = range::image_from(images, ends[i].0, 0)->Some_0;
        let begin = ReadState { has_schema: false, run_started: false, ..st };
        lemma_count_frames(q, begin, images[at], ends[i].1, 0);
        lemma_count_published(q, next, images, ends, i + 1);
    }
}

/// A log that is in step publishes one mutation for each sequence number.
pub proof fn lemma_log_length(w: WalView, limits: WalRangeLimits, images: Seq<SegmentImage>)
    requires
        in_step(w, limits, images),
    ensures
        range_laws::log_mutations(images, w.durable_ends, 0).len() == w.next_seq,
{
    let q = range::request_of(w, w.durable_next_seq, limits);
    let st = range::read_start(w.durable_next_seq, limits);
    lemma_count_published(q, st, images, w.durable_ends, 0);
}

/// The log after a synced append, before it rolls over.
proof fn lemma_append_in_step(
    w: WalView,
    limits: WalRangeLimits,
    before: Seq<SegmentImage>,
    after: Seq<SegmentImage>,
    f: DecodedFrame,
    bytes: Seq<u8>,
    cleanup: CleanupIo,
)
    requires
        in_step(w, limits, before),
        segment::images_wf(before),
        w.next_seq < u64::MAX,
        w.active_bytes + 16 + bytes.len() <= u64::MAX,
        w.cleaned(cleanup).1 is Ok,
        grown(before, after, w.active_start_seq, f),
        f.frame@.payload == bytes,
        f.frame.spec_stamp() == w.view,
        f.spec_decode() matches Ok(WalEntry::Mutations(record)) && record.seq == w.next_seq,
    ensures
        ({
            let w2 = w.cleaned(cleanup).0.written((16 + bytes.len()) as int).published();
            &&& in_step(w2, limits, after)
            &&& w2.active_start_seq < w2.next_seq
        }),
{
    let w2 = w.cleaned(cleanup).0.written((16 + bytes.len()) as int).published();
    lemma_republished(w, w2.active_bytes);
    lemma_grown_lookup(before, after, w.active_start_seq, f, w.active_start_seq, 0);
    lemma_lookup(before, w.active_start_seq, 0);
    let qa = range::request_of(w, w.durable_next_seq, limits);
    let a = range::read_start(w.durable_next_seq, limits);
    let qb = range::request_of(w2, w2.durable_next_seq, limits);
    let b = range::read_start(w2.durable_next_seq, limits);
    lemma_grown_published(
        qa,
        a,
        qb,
        b,
        before,
        after,
        w.durable_ends,
        w2.durable_ends,
        f,
        0,
    );
    ends::lemma_with_end(w.durable_ends, w.active_start_seq, w2.active_bytes);
    assert(w2.durable_ends[0].0 == 0);
    lemma_starts_within(qa, a, before, w.durable_ends, 0);
}

/// What was appended can be read: an append to a log in step with its files
/// issues the next sequence number and leaves the log in step, once its frame
/// stands in the active file under the current view and decodes to a record
/// with that number. `new` is the file of the next segment, where the append
/// rolls over.
pub proof fn law_append_keeps_log_readable(
    w: WalView,
    limits: WalRangeLimits,
    before: Seq<SegmentImage>,
    after: Seq<SegmentImage>,
    new: SegmentImage,
    f: DecodedFrame,
    bytes: Seq<u8>,
    io: AppendIo,
)
    requires
        in_step(w, limits, before),
        segment::images_wf(before),
        w.next_seq < u64::MAX,
        w.active_bytes + 16 + bytes.len() <= u64::MAX,
        bytes.len() <= u32::MAX,
        w.cleaned(io.cleanup).1 is Ok,
        io.write is Ok,
        io.sync is Ok,
        grown(before, after, w.active_start_seq, f),
        f.frame@.payload == bytes,
        f.frame.spec_stamp() == w.view,
        f.spec_decode() matches Ok(WalEntry::Mutations(record)) && record.seq == w.next_seq,
        io.roll.prepared matches Ok(size) ==> {
            &&& header_only(new, (w.next_seq + 1) as u64, size, w.view)
            &&& range::image_from(after, (w.next_seq + 1) as u64, 0) is None
        },
    ensures
        ({
            let (w2, r) = w.appended(Ok(bytes), io);
            &&& r == Ok::<u64, WalError>(w.next_seq)
            &&& if w2.active_start_seq == w.active_start_seq {
                in_step(w2, limits, after)
            } else {
                in_step(w2, limits, after.push(new))
            }
        }),
{
    lemma_append_in_step(w, limits, before, after, f, bytes, io.cleanup);
    let w1 = w.cleaned(io.cleanup).0.written((16 + bytes.len()) as int).published();
    if w1.active_bytes > w1.config.max_segment_bytes {
        if w1.rolled(io.roll).1 is Ok {
            law_rollover_keeps_log_readable(w1, limits, after, new, io.roll);
        } else {
            let w2 = w1.rolled_if_due(io.roll);
            assert(tail_read(w2, limits, after) == tail_read(w1, limits, after));
        }
    }
}

/// Acknowledging a flush leaves a log in step with its files, once the
/// checkpoint frame stands in the active file.
pub proof fn law_acknowledgement_keeps_log_readable(
    w: WalView,
    limits: WalRangeLimits,
    before: Seq<SegmentImage>,
    after: Seq<SegmentImage>,
    f: DecodedFrame,
    seq: u64,
    bytes: Seq<u8>,
    io: AppendIo,
)
    requires
        in_step(w, limits, before),
        segment::images_wf(before),
        w.active_bytes + 16 + bytes.len() <= u64::MAX,
        bytes.len() <= u32::MAX,
        w.cleaned(io.cleanup).1 is Ok,
        io.write is Ok,
        io.sync is Ok,
        grown(before, after, w.active_start_seq, f),
        f.frame@.payload == bytes,
        f.frame.spec_stamp() == w.view,
        f.spec_decode() matches Ok(WalEntry::Checkpoint { .. }),
    ensures
        in_step(w.acknowledged(seq, Ok(bytes), io).0, limits, after),
        w.acknowledged(seq, Ok(bytes), io).1 is Ok,
{
    let w2 = w.acknowledged(seq, Ok(bytes), io).0;
    lemma_republished(w, w2.active_bytes);
    lemma_grown_lookup(before, after, w.active_start_seq, f, w.active_start_seq, 0);
    lemma_lookup(before, w.active_start_seq, 0);
    let qa = range::request_of(w, w.durable_next_seq, limits);
    let a = range::read_start(w.durable_next_seq, limits);
    let qb = range::request_of(w2, w2.durable_next_seq, limits);
    let b = range::read_start(w2.durable_next_seq, limits);
    lemma_grown_published(
        qa,
        a,
        qb,
        b,
        before,
        after,
        w.durable_ends,
        w2.durable_ends,
        f,
        0,
    );
    ends::lemma_with_end(w.durable_ends, w.active_start_seq, w2.active_bytes);
    assert(w2.durable_ends[0].0 == 0);
}

/// A segment file that holds its header alone, under `view`.
pub open spec fn header_only(image: SegmentImage, start: u64, end: u64, view: u64) -> bool {
    &&& image.wf()
    &&& image.start_seq == start
    &&& image.meta.magic == SegmentMagic::Valid
    &&& image.meta.end == end
    &&& image.frames@.len() == 1
    &&& image.frames@[0].spec_decode() matches Ok(WalEntry::Schema(_))
    &&& image.frames@[0].frame.spec_stamp() == view
}

/// A request at the tail passes a segment that holds its header alone.
proof fn lemma_header_passes(q: ReadRequest, st: ReadState, image: SegmentImage, view: u64)
    requires
        quiet(q, st),
        !st.has_schema,
        header_only(image, image.start_seq, image.meta.end, view),
        view >= st.max_view,
    ensures
        range::read_frames(q, st, image, image.meta.end, 0) == ReadStep::Next(
            ReadState { has_schema: true, max_view: view, ..st },
        ),
{
    let raws = frame::raw_frames(image.frames@);
    frame::lemma_contiguous_index(raws, 4, image.meta.end as int, 0);
    let next = ReadState { has_schema: true, max_view: view, ..st };
    assert(range::read_frame(q, st, image, 0) == ReadStep::Next(next));
    assert(range::frame_pos(image, 1) == image.meta.end);
    assert(range::read_frames(q, next, image, image.meta.end, 1) == ReadStep::Next(next));
}

/// A new log is in step with its first file once that holds the header.
pub proof fn law_new_log_is_readable(w: WalView, limits: WalRangeLimits, image: SegmentImage)
    requires
        limits.positive(),
        w.active_start_seq == 0,
        w.next_seq == 0,
        w.durable_next_seq == 0,
        w.durable_ends == seq![(0u64, w.active_bytes)],
        header_only(image, 0, w.active_bytes, w.view),
    ensures
        in_step(w, limits, seq![image]),
{
    let images = seq![image];
    let q = range::request_of(w, 0, limits);
    let st = range::read_start(0, limits);
    assert(range::image_from(images, 0, 0) == Some(0int));
    assert(w.durable_ends[0] == (0u64, w.active_bytes));
    let raws = frame::raw_frames(image.frames@);
    frame::lemma_contiguous_index(raws, 4, image.meta.end as int, 0);
    lemma_header_passes(
        q,
        ReadState { has_schema: false, run_started: false, ..st },
        image,
        w.view,
    );
    let next = ReadState { has_schema: true, max_view: w.view, ..st };
    assert(range::read_one(q, st, images, 0, w.active_bytes) == ReadStep::Next(next));
    assert(range::read_published(q, next, images, w.durable_ends, 1) is Ok);
}

proof fn lemma_pushed_lookup(images: Seq<SegmentImage>, new: SegmentImage, s: u64, i: int)
    requires
        0 <= i <= images.len(),
    ensures
        range::image_from(images, s, i) is Some ==> range::image_from(images.push(new), s, i)
            == range::image_from(images, s, i),
        range::image_from(images, s, i) is None && new.start_seq == s ==> range::image_from(
            images.push(new),
            s,
            i,
        ) == Some(images.len() as int),
    decreases images.len() - i,
{
    if i < images.len() {
        assert(images.push(new)[i] == images[i]);
        lemma_pushed_lookup(images, new, s, i + 1);
    } else {
        assert(images.push(new)[i] == new);
        assert(range::image_from(images.push(new), s, i + 1) is None);
    }
}

/// A log reads on over a new last segment.
proof fn lemma_pushed_published(
    qa: ReadRequest,
    a: ReadState,
    qb: ReadRequest,
    b: ReadState,
    images: Seq<SegmentImage>,
    new: SegmentImage,
    ends: Seq<(u64, u64)>,
    view: u64,
    i: int,
)
    requires
        quiet(qa, a),
        quiet(qb, b),
        qb.durable_next_seq == qa.durable_next_seq,
        abreast(a, b),
        0 <= i <= ends.len(),
        header_only(new, qa.durable_next_seq, new.meta.end, view),
        new.meta.end >= 4,
        range::image_from(images, qa.durable_next_seq, 0) is None,
        range::read_published(qa, a, images, ends, i) matches Ok(r) && r.seed_view <= view,
        qa.active_start_seq == qb.active_start_seq || forall|j: int|
            i <= j < ends.len() ==> (#[trigger] ends[j]).0 != qb.active_start_seq,
    ensures
        range::read_published(
            qb,
            b,
            images.push(new),
            ends.push((qa.durable_next_seq, new.meta.end)),
            i,
        ) matches Ok(r) && r.seed_view == view,
    decreases ends.len() - i,
{
    let after = images.push(new);
    let ends_b = ends.push((qa.durable_next_seq, new.meta.end));
    if i < ends.len() {
        let (start, end) = ends[i];
        assert(ends_b[i] == ends[i]);
        lemma_quiet_goes_on(qa, a, images, ends, i);
        lemma_pushed_lookup(images, new, start, 0);
        lemma_lookup(images, start, 0);
        let at = range::image_from(images, start, 0)->Some_0;
        assert(after[at] == images[at]);
        let sa = ReadState { has_schema: false, run_started: false, ..a };
        let sb = ReadState { has_schema: false, run_started: false, ..b };
        lemma_sealed_follows(qa, sa, qb, sb, images[at], end, 0);
        let next = range::read_one(qa, a, images, start, end)->Next_0;
        let nb = range::read_one(qb, b, after, start, end)->Next_0;
        lemma_pushed_published(qa, next, qb, nb, images, new, ends, view, i + 1);
    } else {
        assert(ends_b[i] == (qa.durable_next_seq, new.meta.end));
        lemma_pushed_lookup(images, new, qa.durable_next_seq, 0);
        let sb = ReadState { has_schema: false, run_started: false, ..b };
        lemma_header_passes(qb, sb, new, view);
        let last = ReadState { has_schema: true, max_view: view, ..sb };
        assert(range::read_one(qb, b, after, ends_b[i].0, ends_b[i].1) == ReadStep::Next(last));
        assert(range::read_published(qb, last, after, ends_b, i + 1) is Ok);
    }
}

/// Once another segment is active, a segment reads at least as before: stale
/// controls in it no longer stand in the way.
proof fn lemma_sealed_follows(
    qa: ReadRequest,
    a: ReadState,
    qb: ReadRequest,
    b: ReadState,
    image: SegmentImage,
    end: u64,
    k: int,
)
    requires
        quiet(qa, a),
        quiet(qb, b),
        qb.durable_next_seq == qa.durable_next_seq,
        abreast(a, b),
        0 <= k,
        image.start_seq != qb.active_start_seq || qa.active_start_seq == qb.active_start_seq,
        range::read_frames(qa, a, image, end, k) is Next,
    ensures
        ({
            let next = range::read_frames(qa, a, image, end, k)->Next_0;
            let step = range::read_frames(qb, b, image, end, k);
            &&& quiet(qa, next)
            &&& step is Next
            &&& abreast(next, step->Next_0)
            &&& quiet(qb, step->Next_0)
        }),
    decreases image.frames@.len() - k,
{
    if range::frame_pos(image, k) < end {
        let next = range::read_frame(qa, a, image, k)->Next_0;
        let nb = range::read_frame(qb, b, image, k)->Next_0;
        assert(range::read_frame(qb, b, image, k) is Next);
        lemma_sealed_follows(qa, next, qb, nb, image, end, k + 1);
    }
}

/// A rollover leaves a log in step with its files, once the new file holds its
/// header under the current view. The active segment must hold a record: a
/// segment without one would share its start with the new one.
pub proof fn law_rollover_keeps_log_readable(
    w: WalView,
    limits: WalRangeLimits,
    images: Seq<SegmentImage>,
    new: SegmentImage,
    io: RollIo,
)
    requires
        in_step(w, limits, images),
        w.rolled(io).1 is Ok,
        io.prepared matches Ok(bytes) && header_only(new, w.next_seq, bytes, w.view),
        w.active_start_seq < w.next_seq,
        range::image_from(images, w.next_seq, 0) is None,
    ensures
        in_step(w.rolled(io).0, limits, images.push(new)),
{
    let w2 = w.rolled(io).0;
    let bytes = io.prepared->Ok_0;
    ends::lemma_with_end(w.durable_ends, w.next_seq, bytes);
    assert(w2.durable_ends == w.durable_ends.push((w.next_seq, bytes)));
    let qa = range::request_of(w, w.durable_next_seq, limits);
    let a = range::read_start(w.durable_next_seq, limits);
    let qb = range::request_of(w2, w2.durable_next_seq, limits);
    assert forall|j: int| 0 <= j < w.durable_ends.len() implies (
    #[trigger] w.durable_ends[j]).0 != w2.active_start_seq by {
        let last = w.durable_ends.len() - 1;
        if j < last {
            assert(w.durable_ends[j].0 < w.durable_ends[last].0);
        }
    }
    let raws = frame::raw_frames(new.frames@);
    frame::lemma_contiguous_index(raws, 4, new.meta.end as int, 0);
    lemma_pushed_published(qa, a, qb, a, images, new, w.durable_ends, w.view, 0);
    lemma_pushed_lookup(images, new, w.next_seq, 0);
    assert(images.push(new)[images.len() as int] == new);
    assert(w2.durable_ends[0] == w.durable_ends[0]);
}

/// The file ends with its last whole frame.
pub open spec fn whole(image: SegmentImage) -> bool {
    image.meta.len == image.meta.end && image.meta.tail == StreamTail::End
}

/// The segment files are exactly the published ones, and hold nothing beyond
/// what is published.
pub open spec fn settled(w: WalView, images: Seq<SegmentImage>) -> bool {
    &&& images.len() == w.durable_ends.len()
    &&& forall|i: int|
        #![trigger images[i]]
        0 <= i < images.len() ==> {
            &&& images[i].start_seq == w.durable_ends[i].0
            &&& images[i].meta.end == w.durable_ends[i].1
            &&& whole(images[i])
        }
}

pub proof fn lemma_settled_lookup(w: WalView, images: Seq<SegmentImage>, i: int, j: int)
    requires
        settled(w, images),
        ends::ascending(w.durable_ends),
        0 <= j <= i < images.len(),
    ensures
        range::image_from(images, w.durable_ends[i].0, j) == Some(i),
    decreases i - j,
{
    assert(images[j].start_seq == w.durable_ends[j].0);
    if j < i {
        assert(w.durable_ends[j].0 < w.durable_ends[i].0);
        lemma_settled_lookup(w, images, i, j + 1);
    }
}

/// What reading the frames of a whole segment shows: they decode, the facts
/// that recovery wants of them agree with the read, and in the active segment
/// none is stale.
proof fn lemma_read_facts(
    q: ReadRequest,
    st: ReadState,
    image: SegmentImage,
    k: int,
    facts: SegmentFacts,
    bound: u64,
)
    requires
        image.wf(),
        image.meta.tail == StreamTail::End,
        0 <= k <= image.frames@.len(),
        range::read_frames(q, st, image, image.meta.end, k) is Next,
        st.max_view <= bound,
        forall|j: int|
            k <= j < image.frames@.len() ==> (#[trigger] image.frames@[j]).frame.spec_stamp()
                <= bound,
    ensures
        ({
            let next = range::read_frames(q, st, image, image.meta.end, k)->Next_0;
            &&& recovery::facts_from(image, k, facts) matches Ok(f) && f.last_seq
                == if next.expected_seq > st.expected_seq {
                Some((next.expected_seq - 1) as u64)
            } else {
                facts.last_seq
            }
            &&& next.expected_seq >= st.expected_seq
            &&& st.max_view <= next.max_view <= bound
            &&& forall|j: int|
                k <= j < image.frames@.len() ==> (#[trigger] image.frames@[j]).frame.spec_stamp()
                    <= next.max_view
            &&& image.start_seq == q.active_start_seq ==> recovery_laws::sound(
                image.frames@,
                k,
                image.frames@.len() as int,
                st.max_view,
            )
            &&& next.has_schema
            &&& k == image.frames@.len() ==> st.has_schema
        }),
    decreases image.frames@.len() - k,
{
    let raws = frame::raw_frames(image.frames@);
    if k < image.frames@.len() {
        frame::lemma_contiguous_index(raws, 4, image.meta.end as int, k);
        let f = image.frames@[k];
        let next = range::read_frame(q, st, image, k)->Next_0;
        let entry = f.spec_decode()->Ok_0;
        lemma_read_facts(q, next, image, k + 1, recovery::facts_with(facts, f, entry), bound);
        if image.start_seq == q.active_start_seq {
            assert(next.max_view == f.frame.spec_stamp());
        }
    }
}

/// What the read has shown before the `i`-th published segment.
spec fn settled_before(images: Seq<SegmentImage>, st: ReadState, i: int, bound: u64) -> bool {
    &&& recovery::sealed_next(images, i) == Ok::<u64, WalError>(st.expected_seq)
    &&& recovery::sealed_counts_on(images, i)
    &&& forall|j: int|
        0 <= j < i ==> recovery::segment_facts(#[trigger] images[j]) is Ok && images[j].meta.magic
            == SegmentMagic::Valid
    &&& forall|j: int, k: int|
        #![trigger images[j].frames@[k]]
        0 <= j < i && 0 <= k < images[j].frames@.len()
            ==> images[j].frames@[k].frame.spec_stamp() <= st.max_view
    &&& st.max_view <= bound
}

/// Reading the segments up to the last one shows what recovery finds of them.
proof fn lemma_settled_prefix(
    w: WalView,
    q: ReadRequest,
    st: ReadState,
    images: Seq<SegmentImage>,
    i: int,
    bound: u64,
) -> (last: ReadState)
    requires
        segment::images_wf(images),
        settled(w, images),
        ends::ascending(w.durable_ends),
        quiet(q, st),
        0 <= i < images.len(),
        settled_before(images, st, i, bound),
        bounded(images, bound),
        range::read_published(q, st, images, w.durable_ends, i) is Ok,
    ensures
        quiet(q, last),
        settled_before(images, last, images.len() - 1, bound),
        range::read_published(q, last, images, w.durable_ends, images.len() - 1)
            == range::read_published(q, st, images, w.durable_ends, i),
    decreases images.len() - i,
{
    if i == images.len() - 1 {
        st
    } else {
        let image = images[i];
        lemma_settled_lookup(w, images, i, 0);
        lemma_quiet_goes_on(q, st, images, w.durable_ends, i);
        let begin = ReadState { has_schema: false, run_started: false, ..st };
        let none = SegmentFacts { last_seq: None, checkpoint: None, bytes: 0 };
        assert(image.wf());
        assert forall|k: int| 0 <= k < image.frames@.len() implies (
        #[trigger] image.frames@[k]).frame.spec_stamp() <= bound by {
            assert(images[i].frames@[k] == image.frames@[k]);
        }
        lemma_read_facts(q, begin, image, 0, none, bound);
        lemma_one_follows(q, st, q, st, images, w.durable_ends[i].0, w.durable_ends[i].1);
        let next = range::read_one(
            q,
            st,
            images,
            w.durable_ends[i].0,
            w.durable_ends[i].1,
        )->Next_0;
        assert(settled_before(images, next, i + 1, bound));
        lemma_settled_prefix(w, q, next, images, i + 1, bound)
    }
}

/// No frame of `images` carries a view above `bound`.
spec fn bounded(images: Seq<SegmentImage>, bound: u64) -> bool {
    forall|j: int, k: int|
        #![trigger images[j].frames@[k]]
        0 <= j < images.len() && 0 <= k < images[j].frames@.len()
            ==> images[j].frames@[k].frame.spec_stamp() <= bound
}

proof fn lemma_header_views(image: SegmentImage, bound: u64)
    requires
        image.meta.tail == StreamTail::End,
        forall|k: int|
            0 <= k < image.frames@.len() ==> (#[trigger] image.frames@[k]).frame.spec_stamp()
                <= bound,
    ensures
        forall|k: int|
            0 <= k < image.frames@.len() ==> (#[trigger] image.frames@[k]).frame.spec_stamp()
                <= segment::greatest(image.header_views()),
        segment::greatest(image.header_views()) <= bound,
{
    let views = image.header_views();
    segment::lemma_greatest(views);
    assert forall|k: int| 0 <= k < image.frames@.len() implies (
    #[trigger] image.frames@[k]).frame.spec_stamp() <= segment::greatest(views) by {
        assert(views[k] == image.frames@[k].frame.spec_stamp());
    }
    if segment::greatest(views) != 0 {
        let k = choose|k: int| 0 <= k < views.len() && views[k] == segment::greatest(views);
        assert(views[k] == image.frames@[k].frame.spec_stamp());
    }
}

/// The greatest view of segments without torn tails is that of a frame.
proof fn lemma_sealed_view(images: Seq<SegmentImage>, n: int, bound: u64)
    requires
        0 <= n <= images.len(),
        forall|j: int| 0 <= j < n ==> (#[trigger] images[j]).meta.tail == StreamTail::End,
        forall|j: int, k: int|
            #![trigger images[j].frames@[k]]
            0 <= j < n && 0 <= k < images[j].frames@.len()
                ==> images[j].frames@[k].frame.spec_stamp() <= bound,
    ensures
        segment::max_view(images.take(n)) <= bound,
        forall|j: int, k: int|
            #![trigger images[j].frames@[k]]
            0 <= j < n && 0 <= k < images[j].frames@.len()
                ==> images[j].frames@[k].frame.spec_stamp() <= segment::max_view(images.take(n)),
    decreases n,
{
    if n > 0 {
        lemma_sealed_view(images, n - 1, bound);
        let image = images[n - 1];
        assert(images.take(n).drop_last() =~= images.take(n - 1));
        assert(images.take(n).last() == image);
        assert forall|k: int| 0 <= k < image.frames@.len() implies (
        #[trigger] image.frames@[k]).frame.spec_stamp() <= bound by {
            assert(images[n - 1].frames@[k] == image.frames@[k]);
        }
        lemma_header_views(image, bound);
    }
}

proof fn lemma_sealed_ends(w: WalView, images: Seq<SegmentImage>, n: int)
    requires
        settled(w, images),
        ends::ascending(w.durable_ends),
        0 <= n <= images.len(),
    ensures
        recovery::sealed_ends(images, n) == w.durable_ends.take(n),
    decreases n,
{
    if n > 0 {
        lemma_sealed_ends(w, images, n - 1);
        let before = w.durable_ends.take(n - 1);
        assert(images[n - 1].start_seq == w.durable_ends[n - 1].0);
        if n > 1 {
            assert(before.last() == w.durable_ends[n - 2]);
            assert(w.durable_ends[n - 2].0 < w.durable_ends[n - 1].0);
        }
        assert(w.durable_ends.take(n) =~= before.push(w.durable_ends[n - 1]));
    } else {
        assert(w.durable_ends.take(0) =~= Seq::empty());
    }
}

proof fn lemma_sealed_checkpoint(images: Seq<SegmentImage>, n: int, bytes: u64)
    requires
        n <= images.len(),
        forall|j: int| 0 <= j < n ==> recovery::segment_facts(#[trigger] images[j]) is Ok,
    ensures
        recovery::sealed_checkpoint(images, n, bytes) is Ok,
    decreases n,
{
    if n > 0 {
        let facts = recovery::segment_facts(images[n - 1])->Ok_0;
        lemma_sealed_checkpoint(images, n - 1, (bytes + facts.bytes) as u64);
    }
}

proof fn lemma_no_magic_error(images: Seq<SegmentImage>, n: int)
    requires
        n <= images.len(),
        forall|j: int| 0 <= j < n ==> (#[trigger] images[j]).meta.magic == SegmentMagic::Valid,
    ensures
        recovery::magic_error(images, n) is None,
    decreases n,
{
    if n > 0 {
        lemma_no_magic_error(images, n - 1);
    }
}

/// What recovery finds over the files of a log that is in step with them.
pub proof fn lemma_reopening(
    w: WalView,
    limits: WalRangeLimits,
    images: Seq<SegmentImage>,
    schema: Seq<ComponentSchema>,
    config: WalConfig,
    payload: Seq<u8>,
)
    requires
        in_step(w, limits, images),
        segment::images_wf(images),
        settled(w, images),
    ensures
        recovery::recovered(images, schema, config, payload) matches Ok(out) && {
            &&& out.truncate_to == w.active_bytes
            &&& out.header is None
            &&& out.wal.next_seq == w.next_seq
            &&& out.wal.durable_ends == w.durable_ends
            &&& forall|from_seq: u64, asked: WalRangeLimits|
                #[trigger] range::range_read(out.wal, from_seq, asked, images)
                    == range::range_read(w, from_seq, asked, images)
            &&& in_step(out.wal, limits, images)
        },
        recovery::active_scan(images).kept == images.last().frames@.len(),
        recovery::counts_on(images, recovery::active_scan(images)),
        forall|j: int|
            0 <= j < images.len() - 1 ==> recovery::segment_facts(#[trigger] images[j]) is Ok,
{
    let n = images.len() as int;
    let active = images.last();
    let q = range::request_of(w, w.durable_next_seq, limits);
    let st = range::read_start(w.durable_next_seq, limits);
    let sealed = images.drop_last();
    assert(sealed =~= images.take(n - 1));
    let sealed_view = segment::max_view(sealed);
    let scan = recovery::scanned(active.frames@, 0, recovery::scan_start(sealed_view));
    let view = views::max_u64(sealed_view, scan.max_kept_view);
    assert(active.wf());
    // Everything is bounded by some view; the tight bound comes at the end.
    assert(bounded(images, u64::MAX));
    let last = lemma_settled_prefix(w, q, st, images, 0, u64::MAX);
    lemma_settled_lookup(w, images, n - 1, 0);
    lemma_quiet_goes_on(q, last, images, w.durable_ends, n - 1);
    let begin = ReadState { has_schema: false, run_started: false, ..last };
    let none = SegmentFacts { last_seq: None, checkpoint: None, bytes: 0 };
    lemma_read_facts(q, begin, active, 0, none, u64::MAX);
    let end = range::read_frames(q, begin, active, active.meta.end, 0)->Next_0;
    assert(range::read_one(q, last, images, w.durable_ends[n - 1].0, w.durable_ends[n - 1].1)
        == ReadStep::Next(end));
    assert(range::read_published(q, end, images, w.durable_ends, n) is Ok);
    assert(end.expected_seq == w.durable_next_seq);
    lemma_sealed_view(images, n - 1, last.max_view);
    lemma_sound_above(active.frames@, 0, active.frames@.len() as int, last.max_view, sealed_view);
    recovery_laws::law_sound_segment_is_kept_whole(active, sealed_view);
    assert(active.frames.len() == active.frames@.len());
    lemma_read_last_mutation(q, begin, active, 0);
    lemma_sealed_ends(w, images, n - 1);
    lemma_sealed_checkpoint(images, n - 1, scan.bytes_since_checkpoint);
    lemma_no_magic_error(images, n - 1);
    assert(active.meta.magic == SegmentMagic::Valid);
    let raws = frame::raw_frames(active.frames@);
    assert(active.frames@.len() > 0);
    frame::lemma_contiguous_index(raws, 4, active.meta.end as int, 0);
    frame::lemma_contiguous_index(raws, 4, active.meta.end as int, active.frames@.len() - 1);
    assert(scan.pos > 4);
    let out = recovery::recovered(images, schema, config, payload)->Ok_0;
    let before = w.durable_ends.take(n - 1);
    if n > 1 {
        assert(before.last() == w.durable_ends[n - 2]);
        assert(w.durable_ends[n - 2].0 < w.durable_ends[n - 1].0);
    }
    assert(w.durable_ends =~= before.push(w.durable_ends[n - 1]));
    assert(active.start_seq == w.durable_ends[n - 1].0);
    assert(out.wal.durable_ends == w.durable_ends);
    assert(out.wal.next_seq == w.next_seq);
    assert forall|from_seq: u64, asked: WalRangeLimits|
        #[trigger] range::range_read(out.wal, from_seq, asked, images) == range::range_read(
            w,
            from_seq,
            asked,
            images,
        ) by {
        assert(range::request_of(out.wal, from_seq, asked) == range::request_of(
            w,
            from_seq,
            asked,
        ));
    }
    // The seed of the tail is the view of some frame, and the log resumes there.
    assert forall|j: int, k: int|
        #![trigger images[j].frames@[k]]
        0 <= j < images.len() && 0 <= k < images[j].frames@.len() implies
        images[j].frames@[k].frame.spec_stamp() <= view by {
        recovery_laws::law_reopened_log_resumes_view(images, schema, config, payload, j, k);
    }
    let tight = lemma_settled_prefix(w, q, st, images, 0, view);
    lemma_quiet_goes_on(q, tight, images, w.durable_ends, n - 1);
    lemma_read_facts(
        q,
        ReadState { has_schema: false, run_started: false, ..tight },
        active,
        0,
        none,
        view,
    );
    let tip = range::read_one(
        q,
        tight,
        images,
        w.durable_ends[n - 1].0,
        w.durable_ends[n - 1].1,
    )->Next_0;
    assert(tip.max_view <= view);
    assert(range::read_published(q, tip, images, w.durable_ends, n) is Ok);
    assert(tail_read(w, limits, images)->Ok_0.seed_view == tip.max_view);
    assert(tail_read(out.wal, limits, images) == tail_read(w, limits, images));
    assert(out.wal.durable_ends.last() == (out.wal.active_start_seq, out.wal.active_bytes));
    assert(ends::has_start(out.wal.durable_ends, out.wal.active_start_seq)) by {
        assert(out.wal.durable_ends[n - 1].0 == out.wal.active_start_seq);
    }
}

/// Reopening loses nothing: over the files of a log that is in step with them,
/// recovery succeeds and cuts nothing off. The reopened log issues the same
/// next sequence number and serves every range as before, and is in step.
pub proof fn law_reopened_log_reads_the_same(
    w: WalView,
    limits: WalRangeLimits,
    images: Seq<SegmentImage>,
    schema: Seq<ComponentSchema>,
    config: WalConfig,
    payload: Seq<u8>,
)
    requires
        in_step(w, limits, images),
        segment::images_wf(images),
        settled(w, images),
    ensures
        recovery::recovered(images, schema, config, payload) matches Ok(out) && {
            &&& out.truncate_to == w.active_bytes
            &&& out.header is None
            &&& out.wal.next_seq == w.next_seq
            &&& forall|from_seq: u64, asked: WalRangeLimits|
                #[trigger] range::range_read(out.wal, from_seq, asked, images)
                    == range::range_read(w, from_seq, asked, images)
            &&& in_step(out.wal, limits, images)
        },
{
    lemma_reopening(w, limits, images, schema, config, payload);
}

proof fn lemma_sound_above(
    frames: Seq<DecodedFrame>,
    k: int,
    n: int,
    fence: u64,
    lower: u64,
)
    requires
        recovery_laws::sound(frames, k, n, fence),
        lower <= fence,
    ensures
        recovery_laws::sound(frames, k, n, lower),
{
}

/// The last mutation of a segment carries the number before the next one.
proof fn lemma_read_last_mutation(q: ReadRequest, st: ReadState, image: SegmentImage, k: int)
    requires
        image.wf(),
        0 <= k <= image.frames@.len(),
        range::read_frames(q, st, image, image.meta.end, k) is Next,
        recovery_laws::last_mutation(image.frames@, k) matches Some(seq) ==> st.expected_seq
            == seq + 1,
    ensures
        ({
            let next = range::read_frames(q, st, image, image.meta.end, k)->Next_0;
            match recovery_laws::last_mutation(image.frames@, image.frames@.len() as int) {
                Some(seq) => next.expected_seq == seq + 1,
                None => next.expected_seq == st.expected_seq,
            }
        }),
    decreases image.frames@.len() - k,
{
    let raws = frame::raw_frames(image.frames@);
    if k < image.frames@.len() {
        frame::lemma_contiguous_index(raws, 4, image.meta.end as int, k);
        let next = range::read_frame(q, st, image, k)->Next_0;
        lemma_read_last_mutation(q, next, image, k + 1);
        if let Ok(WalEntry::Mutations(_)) = image.frames@[k].spec_decode() {
            lemma_mutation_stays(image.frames@, k + 1, image.frames@.len() as int);
        }
    }
}

proof fn lemma_mutation_stays(frames: Seq<DecodedFrame>, k: int, n: int)
    requires
        0 <= k <= n,
        recovery_laws::last_mutation(frames, k) is Some,
    ensures
        recovery_laws::last_mutation(frames, n) is Some,
    decreases n - k,
{
    if k < n {
        lemma_mutation_stays(frames, k, n - 1);
    }
}

} // verus!
