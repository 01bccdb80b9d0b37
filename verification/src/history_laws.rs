//! Laws that follow a log from its creation through any number of writes: what
//! was written is what a read, or a reopened log, gives back.
use crate::ends;
use crate::error::WalError;
use crate::frame;
use crate::frame::DecodedFrame;
use crate::log_laws;
use crate::range;
use crate::range::WalRangeLimits;
use crate::range_laws;
use crate::range_laws::ShippedRun;
use crate::record::{ComponentSchema, WalEntry};
use crate::recovery;
use crate::recovery::{ActiveScan, SegmentFacts};
use crate::segment;
use crate::segment::SegmentImage;
use crate::wal::{AppendIo, CleanupIo, RollIo, WalConfig, WalView};
use vstd::prelude::*;

verus! {

/// The last checkpoint, and the mutation bytes that follow it.
pub struct Ledger {
    pub checkpoint: Option<u64>,
    pub bytes: int,
}

/// The ledger after frame `f`.
pub open spec fn booked(l: Ledger, f: DecodedFrame) -> Ledger {
    match f.spec_decode() {
        Ok(WalEntry::Mutations(_)) => Ledger {
            bytes: l.bytes + f.frame.spec_end() - f.frame.offset,
            ..l
        },
        Ok(WalEntry::Checkpoint { flush_seq }) => Ledger { checkpoint: Some(flush_seq), bytes: 0 },
        _ => l,
    }
}

/// The ledger after the frames `frames[..n]`.
pub open spec fn booked_frames(l: Ledger, frames: Seq<DecodedFrame>, n: int) -> Ledger
    decreases n,
{
    if n <= 0 {
        l
    } else {
        booked(booked_frames(l, frames, n - 1), frames[n - 1])
    }
}

/// The ledger of the segments `images[..n]`.
pub open spec fn ledger(images: Seq<SegmentImage>, n: int) -> Ledger
    decreases n,
{
    if n <= 0 {
        Ledger { checkpoint: None, bytes: 0 }
    } else {
        let frames = images[n - 1].frames@;
        booked_frames(ledger(images, n - 1), frames, frames.len() as int)
    }
}

/// The log and its files tell the same story: it is in step with them, they
/// hold exactly what it published, and its checkpoint accounting is theirs.
pub open spec fn faithful(w: WalView, limits: WalRangeLimits, images: Seq<SegmentImage>) -> bool {
    &&& log_laws::in_step(w, limits, images)
    &&& log_laws::settled(w, images)
    &&& segment::images_wf(images)
    &&& ledger(images, images.len() as int) == (Ledger {
        checkpoint: w.last_checkpoint_seq,
        bytes: w.bytes_since_checkpoint as int,
    })
}

/// The mutations of a log, in order.
pub open spec fn mutations(w: WalView, images: Seq<SegmentImage>) -> Seq<DecodedFrame> {
    range_laws::log_mutations(images, w.durable_ends, 0)
}

proof fn lemma_booked_same(l: Ledger, a: Seq<DecodedFrame>, b: Seq<DecodedFrame>, n: int)
    requires
        forall|i: int| 0 <= i < n ==> #[trigger] a[i] == b[i],
    ensures
        booked_frames(l, a, n) == booked_frames(l, b, n),
    decreases n,
{
    if n > 0 {
        lemma_booked_same(l, a, b, n - 1);
        assert(a[n - 1] == b[n - 1]);
    }
}

proof fn lemma_ledger_same(a: Seq<SegmentImage>, b: Seq<SegmentImage>, n: int)
    requires
        forall|i: int| 0 <= i < n ==> #[trigger] a[i] == b[i],
    ensures
        ledger(a, n) == ledger(b, n),
    decreases n,
{
    if n > 0 {
        lemma_ledger_same(a, b, n - 1);
        assert(a[n - 1] == b[n - 1]);
    }
}

/// A segment with its header alone books nothing.
proof fn lemma_header_books_nothing(l: Ledger, image: SegmentImage, view: u64)
    requires
        log_laws::header_only(image, image.start_seq, image.meta.end, view),
    ensures
        booked_frames(l, image.frames@, image.frames@.len() as int) == l,
{
    assert(booked_frames(l, image.frames@, 0) == l);
    assert(booked_frames(l, image.frames@, 1) == booked(l, image.frames@[0]));
}

proof fn lemma_no_image(images: Seq<SegmentImage>, start: u64, i: int)
    requires
        0 <= i,
        forall|j: int| 0 <= j < images.len() ==> (#[trigger] images[j]).start_seq != start,
    ensures
        range::image_from(images, start, i) is None,
    decreases images.len() - i,
{
    if i < images.len() {
        lemma_no_image(images, start, i + 1);
    }
}

/// The last file is the active one, and no file starts after it.
proof fn lemma_active_last(w: WalView, limits: WalRangeLimits, images: Seq<SegmentImage>)
    requires
        log_laws::in_step(w, limits, images),
        log_laws::settled(w, images),
    ensures
        images.len() > 0,
        range::image_from(images, w.active_start_seq, 0) == Some(images.len() - 1),
        images.last().meta.end == w.active_bytes,
        images.last().start_seq == w.active_start_seq,
        w.active_start_seq <= w.next_seq,
        forall|j: int|
            0 <= j < images.len() ==> (#[trigger] images[j]).start_seq <= w.active_start_seq,
{
    let n = images.len() as int;
    log_laws::lemma_settled_lookup(w, images, n - 1, 0);
    log_laws::lemma_active_start(w, limits, images);
    assert forall|j: int| 0 <= j < images.len() implies (#[trigger] images[j]).start_seq
        <= w.active_start_seq by {
        if j < n - 1 {
            assert(w.durable_ends[j].0 < w.durable_ends[n - 1].0);
        }
    }
    assert(images[n - 1].start_seq == w.durable_ends[n - 1].0);
}

proof fn lemma_segment_grown(a: SegmentImage, b: SegmentImage, f: DecodedFrame, k: int)
    requires
        a.wf(),
        log_laws::extends(a, b, f),
        0 <= k <= a.frames@.len(),
    ensures
        range_laws::published_mutations(b, b.meta.end, k) == range_laws::published_mutations(
            a,
            a.meta.end,
            k,
        ) + if range_laws::is_mutation(f) {
            seq![f]
        } else {
            Seq::empty()
        },
    decreases a.frames@.len() - k,
{
    let n = a.frames@.len() as int;
    if k < n {
        let raws = frame::raw_frames(a.frames@);
        frame::lemma_contiguous_index(raws, 4, a.meta.end as int, k);
        assert(b.frames@[k] == a.frames@[k]);
        lemma_segment_grown(a, b, f, k + 1);
        assert(range_laws::published_mutations(b, b.meta.end, k) =~=
            range_laws::published_mutations(a, a.meta.end, k) + if range_laws::is_mutation(f) {
            seq![f]
        } else {
            Seq::empty()
        });
    } else {
        assert(b.frames@[n] == f);
        assert(range_laws::published_mutations(b, b.meta.end, n + 1) == Seq::<
            DecodedFrame,
        >::empty());
        assert(range_laws::published_mutations(b, b.meta.end, k) =~=
            range_laws::published_mutations(a, a.meta.end, k) + if range_laws::is_mutation(f) {
            seq![f]
        } else {
            Seq::empty()
        });
    }
}

/// One more frame in the active file is one more at the end of the log.
proof fn lemma_log_grown(
    before: Seq<SegmentImage>,
    after: Seq<SegmentImage>,
    ends_a: Seq<(u64, u64)>,
    ends_b: Seq<(u64, u64)>,
    f: DecodedFrame,
    i: int,
)
    requires
        segment::images_wf(before),
        0 <= i < ends_a.len(),
        ends_a.len() == before.len() == after.len() == ends_b.len(),
        forall|j: int|
            0 <= j < ends_a.len() ==> range::image_from(before, (#[trigger] ends_a[j]).0, 0)
                == Some(j),
        forall|j: int|
            0 <= j < ends_b.len() ==> range::image_from(after, (#[trigger] ends_b[j]).0, 0)
                == Some(j),
        forall|j: int|
            0 <= j < ends_a.len() - 1 ==> #[trigger] after[j] == before[j] && ends_b[j]
                == ends_a[j],
        log_laws::extends(before.last(), after.last(), f),
        before.last().meta.end == ends_a.last().1,
        after.last().meta.end == ends_b.last().1,
    ensures
        range_laws::log_mutations(after, ends_b, i) == range_laws::log_mutations(before, ends_a, i)
            + if range_laws::is_mutation(f) {
            seq![f]
        } else {
            Seq::empty()
        },
    decreases ends_a.len() - i,
{
    let last = ends_a.len() - 1;
    let added: Seq<DecodedFrame> = if range_laws::is_mutation(f) {
        seq![f]
    } else {
        Seq::empty()
    };
    assert(range::image_from(before, ends_a[i].0, 0) == Some(i));
    assert(range::image_from(after, ends_b[i].0, 0) == Some(i));
    if i < last {
        assert(after[i] == before[i]);
        lemma_log_grown(before, after, ends_a, ends_b, f, i + 1);
    } else {
        assert(before[i].wf());
        lemma_segment_grown(before[i], after[i], f, 0);
        assert(range_laws::log_mutations(before, ends_a, i + 1) == Seq::<DecodedFrame>::empty());
        assert(range_laws::log_mutations(after, ends_b, i + 1) == Seq::<DecodedFrame>::empty());
    }
    assert(range_laws::log_mutations(after, ends_b, i) =~= range_laws::log_mutations(
        before,
        ends_a,
        i,
    ) + added);
}

proof fn lemma_pushed_image(images: Seq<SegmentImage>, new: SegmentImage, s: u64, i: int)
    requires
        0 <= i <= images.len(),
        new.start_seq != s,
    ensures
        range::image_from(images.push(new), s, i) == range::image_from(images, s, i),
    decreases images.len() - i,
{
    if i < images.len() {
        assert(images.push(new)[i] == images[i]);
        lemma_pushed_image(images, new, s, i + 1);
    } else {
        assert(images.push(new)[i] == new);
        assert(range::image_from(images.push(new), s, i + 1) is None);
    }
}

/// A segment with its header alone adds no mutation.
proof fn lemma_log_pushed(
    images: Seq<SegmentImage>,
    new: SegmentImage,
    ends: Seq<(u64, u64)>,
    view: u64,
    i: int,
)
    requires
        0 <= i <= ends.len(),
        log_laws::header_only(new, new.start_seq, new.meta.end, view),
        forall|j: int| 0 <= j < ends.len() ==> (#[trigger] ends[j]).0 != new.start_seq,
        forall|j: int| 0 <= j < images.len() ==> (#[trigger] images[j]).start_seq != new.start_seq,
    ensures
        range_laws::log_mutations(images.push(new), ends.push((new.start_seq, new.meta.end)), i)
            == range_laws::log_mutations(images, ends, i),
    decreases ends.len() - i,
{
    let after = images.push(new);
    let ends_b = ends.push((new.start_seq, new.meta.end));
    if i < ends.len() {
        assert(ends_b[i] == ends[i]);
        lemma_pushed_image(images, new, ends[i].0, 0);
        lemma_log_pushed(images, new, ends, view, i + 1);
        if let Some(at) = range::image_from(images, ends[i].0, 0) {
            lemma_lookup(images, ends[i].0, 0);
            assert(after[at] == images[at]);
        }
    } else {
        assert(ends_b[i] == (new.start_seq, new.meta.end));
        if let Some(at) = range::image_from(after, new.start_seq, 0) {
            lemma_lookup(after, new.start_seq, 0);
            assert(at == images.len()) by {
                if at < images.len() {
                    assert(after[at] == images[at]);
                }
            }
            assert(range_laws::published_mutations(new, new.meta.end, 1) == Seq::<
                DecodedFrame,
            >::empty());
            assert(range_laws::published_mutations(new, new.meta.end, 0) == Seq::<
                DecodedFrame,
            >::empty());
        }
        assert(range_laws::log_mutations(after, ends_b, i + 1) == Seq::<DecodedFrame>::empty());
        assert(range_laws::log_mutations(after, ends_b, i) =~= Seq::<DecodedFrame>::empty());
    }
}

proof fn lemma_lookup(images: Seq<SegmentImage>, s: u64, i: int)
    ensures
        range::image_from(images, s, i) matches Some(j) ==> 0 <= j < images.len()
            && images[j].start_seq == s,
    decreases images.len() - i,
{
    if 0 <= i < images.len() && images[i].start_seq != s {
        lemma_lookup(images, s, i + 1);
    }
}

/// A log as it is created, with its first file, which holds the header alone.
pub open spec fn new_log(w: WalView, limits: WalRangeLimits, image: SegmentImage) -> bool {
    &&& limits.positive()
    &&& w.active_start_seq == 0
    &&& w.next_seq == 0
    &&& w.durable_next_seq == 0
    &&& w.durable_ends == seq![(0u64, w.active_bytes)]
    &&& w.last_checkpoint_seq is None
    &&& w.bytes_since_checkpoint == 0
    &&& log_laws::header_only(image, 0, w.active_bytes, w.view)
    &&& log_laws::whole(image)
}

/// A new log and its first file tell the same story.
pub proof fn law_new_log_is_faithful(w: WalView, limits: WalRangeLimits, image: SegmentImage)
    requires
        new_log(w, limits, image),
    ensures
        faithful(w, limits, seq![image]),
        mutations(w, seq![image]) == Seq::<DecodedFrame>::empty(),
{
    let images = seq![image];
    log_laws::law_new_log_is_readable(w, limits, image);
    log_laws::lemma_log_length(w, limits, images);
    assert(mutations(w, images) =~= Seq::empty());
    assert(ledger(images, 0) == (Ledger { checkpoint: None, bytes: 0 }));
    lemma_header_books_nothing(ledger(images, 0), image, w.view);
    assert(images[0] == image);
    assert(ledger(images, 1) == ledger(images, 0));
}

/// Raising the view of a log changes nothing of what it holds.
pub proof fn law_bumped_log_stays_faithful(
    w: WalView,
    limits: WalRangeLimits,
    images: Seq<SegmentImage>,
    view: u64,
)
    requires
        faithful(w, limits, images),
        view >= w.view,
    ensures
        faithful(WalView { view, ..w }, limits, images),
        mutations(WalView { view, ..w }, images) == mutations(w, images),
{
    let w2 = WalView { view, ..w };
    assert(log_laws::tail_read(w2, limits, images) == log_laws::tail_read(w, limits, images));
}

/// The files after a frame was added to the active one.
pub open spec fn with_active(images: Seq<SegmentImage>, active: SegmentImage) -> Seq<SegmentImage> {
    images.drop_last().push(active)
}

/// Facts of a log before the active file grows by `f` to `active`.
proof fn lemma_grown_files(
    w: WalView,
    limits: WalRangeLimits,
    before: Seq<SegmentImage>,
    active: SegmentImage,
    f: DecodedFrame,
    ends_b: Seq<(u64, u64)>,
)
    requires
        faithful(w, limits, before),
        log_laws::extends(before.last(), active, f),
        log_laws::whole(active),
        active.wf(),
        ends_b == w.durable_ends.drop_last().push((w.active_start_seq, active.meta.end)),
    ensures
        ({
            let after = with_active(before, active);
            &&& log_laws::grown(before, after, w.active_start_seq, f)
            &&& segment::images_wf(after)
            &&& log_laws::settled(WalView { durable_ends: ends_b, ..w }, after)
            &&& ledger(after, after.len() as int) == booked(
                ledger(before, before.len() as int),
                f,
            )
            &&& range_laws::log_mutations(after, ends_b, 0) == mutations(w, before)
                + if range_laws::is_mutation(f) {
                seq![f]
            } else {
                Seq::empty()
            }
            &&& ends::ascending(ends_b)
        }),
{
    let after = with_active(before, active);
    let n = before.len() as int;
    let ends_a = w.durable_ends;
    let w2 = WalView { durable_ends: ends_b, ..w };
    lemma_active_last(w, limits, before);
    assert(after.len() == n);
    assert(after[n - 1] == active);
    assert forall|j: int| 0 <= j < n && j != n - 1 implies after[j] == before[j] by {}
    assert forall|i: int| 0 <= i < after.len() implies (#[trigger] after[i]).wf() by {
        if i < n - 1 {
            assert(before[i].wf());
        }
    }
    assert forall|i: int| 0 <= i < n - 1 implies #[trigger] ends_b[i] == ends_a[i] by {}
    assert(ends_b[n - 1] == (w.active_start_seq, active.meta.end));
    assert(ends_a[n - 1] == (w.active_start_seq, w.active_bytes));
    assert(log_laws::settled(w2, after)) by {
        assert forall|i: int|
            #![trigger after[i]]
            0 <= i < after.len() implies after[i].start_seq == ends_b[i].0 && after[i].meta.end
            == ends_b[i].1 && log_laws::whole(after[i]) by {
            if i < n - 1 {
                assert(before[i].start_seq == ends_a[i].0);
            }
        }
    }
    assert(ends::ascending(ends_b)) by {
        assert forall|i: int, j: int|
            #![trigger ends_b[i], ends_b[j]]
            0 <= i < j < ends_b.len() implies ends_b[i].0 < ends_b[j].0 by {
            assert(ends_a[i].0 < ends_a[j].0);
        }
    }
    assert forall|j: int| 0 <= j < ends_a.len() implies range::image_from(
        before,
        (#[trigger] ends_a[j]).0,
        0,
    ) == Some(j) by {
        log_laws::lemma_settled_lookup(w, before, j, 0);
    }
    assert forall|j: int| 0 <= j < ends_b.len() implies range::image_from(
        after,
        (#[trigger] ends_b[j]).0,
        0,
    ) == Some(j) by {
        log_laws::lemma_settled_lookup(w2, after, j, 0);
    }
    lemma_log_grown(before, after, ends_a, ends_b, f, 0);
    lemma_ledger_same(before, after, n - 1);
    let m = before.last().frames@.len() as int;
    let l = ledger(before, n - 1);
    assert(before[n - 1] == before.last());
    lemma_booked_same(l, before.last().frames@, active.frames@, m);
    assert(active.frames@[m] == f);
}

/// What holds where a rollover succeeds: the file of the new segment, which
/// was not there before, holds its header under the current view. The active
/// segment holds a record, or its own file would be the new one.
pub open spec fn rolled_over(w: WalView, new: SegmentImage, io: RollIo) -> bool {
    &&& w.rolled(io).1 is Ok
    &&& io.prepared matches Ok(bytes) && log_laws::header_only(new, w.next_seq, bytes, w.view)
    &&& log_laws::whole(new)
    &&& w.active_start_seq < w.next_seq
}

/// A rollover leaves the log and its files telling the same story.
pub proof fn law_rollover_stays_faithful(
    w: WalView,
    limits: WalRangeLimits,
    images: Seq<SegmentImage>,
    new: SegmentImage,
    io: RollIo,
)
    requires
        faithful(w, limits, images),
        rolled_over(w, new, io),
    ensures
        faithful(w.rolled(io).0, limits, images.push(new)),
        mutations(w.rolled(io).0, images.push(new)) == mutations(w, images),
{
    let w2 = w.rolled(io).0;
    let after = images.push(new);
    let n = images.len() as int;
    let bytes = io.prepared->Ok_0;
    lemma_active_last(w, limits, images);
    lemma_no_image(images, w.next_seq, 0);
    log_laws::law_rollover_keeps_log_readable(w, limits, images, new, io);
    assert(w2.durable_ends == w.durable_ends.push((w.next_seq, bytes)));
    assert(log_laws::settled(w2, after)) by {
        assert forall|i: int|
            #![trigger after[i]]
            0 <= i < after.len() implies after[i].start_seq == w2.durable_ends[i].0
            && after[i].meta.end == w2.durable_ends[i].1 && log_laws::whole(after[i]) by {
            if i < n {
                assert(after[i] == images[i]);
            }
        }
    }
    assert forall|i: int| 0 <= i < after.len() implies (#[trigger] after[i]).wf() by {
        if i < n {
            assert(images[i].wf());
        }
    }
    lemma_ledger_same(images, after, n);
    assert(after[n] == new);
    lemma_header_books_nothing(ledger(after, n), new, w.view);
    assert forall|j: int| 0 <= j < w.durable_ends.len() implies (
    #[trigger] w.durable_ends[j]).0 != new.start_seq by {
        assert(images[j].start_seq == w.durable_ends[j].0);
    }
    lemma_log_pushed(images, new, w.durable_ends, w.view, 0);
}

/// What holds where an append succeeds: the frame with its payload, stamped
/// with the current view, stands at the end of the active file and decodes to a
/// record with the next sequence number. `new` is the file of the next segment,
/// where the append rolls over.
pub open spec fn written_out(
    w: WalView,
    before: Seq<SegmentImage>,
    active: SegmentImage,
    new: SegmentImage,
    f: DecodedFrame,
    bytes: Seq<u8>,
    io: AppendIo,
) -> bool {
    &&& w.next_seq < u64::MAX
    &&& w.active_bytes + 16 + bytes.len() <= u64::MAX
    &&& w.bytes_since_checkpoint + 16 + bytes.len() <= u64::MAX
    &&& bytes.len() <= u32::MAX
    &&& w.cleaned(io.cleanup).1 is Ok
    &&& io.write is Ok
    &&& io.sync is Ok
    &&& before.len() > 0
    &&& log_laws::extends(before.last(), active, f)
    &&& log_laws::whole(active)
    &&& active.wf()
    &&& f.frame.wf()
    &&& f.frame@.payload == bytes
    &&& f.frame.spec_stamp() == w.view
    &&& f.spec_decode() matches Ok(WalEntry::Mutations(record)) && record.seq == w.next_seq
    &&& io.roll.prepared matches Ok(size) ==> {
        &&& log_laws::header_only(new, (w.next_seq + 1) as u64, size, w.view)
        &&& log_laws::whole(new)
    }
}

/// The files after an append.
pub open spec fn files_after(
    w: WalView,
    before: Seq<SegmentImage>,
    active: SegmentImage,
    new: SegmentImage,
    bytes: Seq<u8>,
    io: AppendIo,
) -> Seq<SegmentImage> {
    if w.appended(Ok(bytes), io).0.active_start_seq == w.active_start_seq {
        with_active(before, active)
    } else {
        with_active(before, active).push(new)
    }
}

/// An append leaves the log and its files telling the same story, with one
/// more mutation at the end: every mutation that was there before is there
/// still, at its place.
pub proof fn law_append_stays_faithful(
    w: WalView,
    limits: WalRangeLimits,
    before: Seq<SegmentImage>,
    active: SegmentImage,
    new: SegmentImage,
    f: DecodedFrame,
    bytes: Seq<u8>,
    io: AppendIo,
)
    requires
        faithful(w, limits, before),
        written_out(w, before, active, new, f, bytes, io),
    ensures
        ({
            let (w2, r) = w.appended(Ok(bytes), io);
            let files = files_after(w, before, active, new, bytes, io);
            &&& r == Ok::<u64, WalError>(w.next_seq)
            &&& faithful(w2, limits, files)
            &&& mutations(w2, files) == mutations(w, before).push(f)
        }),
{
    let after = with_active(before, active);
    let w1 = w.cleaned(io.cleanup).0.written((16 + bytes.len()) as int).published();
    lemma_active_last(w, limits, before);
    lemma_grown_files(w, limits, before, active, f, w1.durable_ends);
    lemma_active_last_after(w, before, active, after);
    lemma_no_image(after, (w.next_seq + 1) as u64, 0);
    // Without a rollover first.
    let calm = AppendIo {
        roll: RollIo { opened: Err(crate::error::IoError::NotFound), ..io.roll },
        ..io
    };
    log_laws::law_append_keeps_log_readable(w, limits, before, after, new, f, bytes, calm);
    let calm_w = w.appended(Ok(bytes), calm).0;
    assert(log_laws::tail_read(w1, limits, after) == log_laws::tail_read(calm_w, limits, after));
    assert(log_laws::in_step(w1, limits, after));
    assert(mutations(w1, after) =~= mutations(w, before).push(f));
    assert(faithful(w1, limits, after));
    if w1.active_bytes > w1.config.max_segment_bytes {
        if w1.rolled(io.roll).1 is Ok {
            law_rollover_stays_faithful(w1, limits, after, new, io.roll);
        } else {
            let w2 = w1.rolled_if_due(io.roll);
            assert(log_laws::tail_read(w2, limits, after) == log_laws::tail_read(
                w1,
                limits,
                after,
            ));
        }
    }
}

proof fn lemma_active_last_after(
    w: WalView,
    before: Seq<SegmentImage>,
    active: SegmentImage,
    after: Seq<SegmentImage>,
)
    requires
        before.len() > 0,
        after == with_active(before, active),
        active.start_seq == before.last().start_seq,
        w.next_seq < u64::MAX,
        forall|j: int| 0 <= j < before.len() ==> (#[trigger] before[j]).start_seq <= w.next_seq,
    ensures
        forall|j: int|
            0 <= j < after.len() ==> (#[trigger] after[j]).start_seq != w.next_seq + 1,
{
    assert forall|j: int| 0 <= j < after.len() implies (#[trigger] after[j]).start_seq != w.next_seq
        + 1 by {
        assert(before[j].start_seq <= w.next_seq);
        if j < before.len() - 1 {
            assert(after[j] == before[j]);
        }
    }
}

/// What holds where the acknowledgement of a flush succeeds: the checkpoint
/// frame, stamped with the current view, stands at the end of the active file.
pub open spec fn checkpointed(
    w: WalView,
    before: Seq<SegmentImage>,
    active: SegmentImage,
    f: DecodedFrame,
    seq: u64,
    bytes: Seq<u8>,
    io: AppendIo,
) -> bool {
    &&& w.active_bytes + 16 + bytes.len() <= u64::MAX
    &&& bytes.len() <= u32::MAX
    &&& w.cleaned(io.cleanup).1 is Ok
    &&& io.write is Ok
    &&& io.sync is Ok
    &&& log_laws::extends(before.last(), active, f)
    &&& log_laws::whole(active)
    &&& active.wf()
    &&& f.frame@.payload == bytes
    &&& f.frame.spec_stamp() == w.view
    &&& f.spec_decode() matches Ok(WalEntry::Checkpoint { flush_seq }) && flush_seq == seq
}

/// Acknowledging a flush leaves the log and its files telling the same story,
/// with the same mutations.
pub proof fn law_acknowledgement_stays_faithful(
    w: WalView,
    limits: WalRangeLimits,
    before: Seq<SegmentImage>,
    active: SegmentImage,
    f: DecodedFrame,
    seq: u64,
    bytes: Seq<u8>,
    io: AppendIo,
)
    requires
        faithful(w, limits, before),
        checkpointed(w, before, active, f, seq, bytes, io),
    ensures
        ({
            let (w2, r) = w.acknowledged(seq, Ok(bytes), io);
            &&& r is Ok
            &&& faithful(w2, limits, with_active(before, active))
            &&& mutations(w2, with_active(before, active)) == mutations(w, before)
        }),
{
    let after = with_active(before, active);
    let w2 = w.acknowledged(seq, Ok(bytes), io).0;
    lemma_active_last(w, limits, before);
    lemma_grown_files(w, limits, before, active, f, w2.durable_ends);
    log_laws::law_acknowledgement_keeps_log_readable(w, limits, before, after, f, seq, bytes, io);
    assert(mutations(w2, after) =~= mutations(w, before));
}

/// A read gives back what was written: after an append, a range asked for at
/// its sequence number, under limits with room for it, holds that record and
/// no other, in the very bytes that were written.
pub proof fn law_appended_record_is_served(
    w: WalView,
    limits: WalRangeLimits,
    before: Seq<SegmentImage>,
    active: SegmentImage,
    new: SegmentImage,
    f: DecodedFrame,
    bytes: Seq<u8>,
    io: AppendIo,
    asked: WalRangeLimits,
) -> (shipped: Seq<ShippedRun>)
    requires
        faithful(w, limits, before),
        written_out(w, before, active, new, f, bytes, io),
        asked.positive(),
        range_laws::room_for(
            files_after(w, before, active, new, bytes, io),
            w.next_seq,
            asked,
        ),
    ensures
        ({
            let w2 = w.appended(Ok(bytes), io).0;
            let files = files_after(w, before, active, new, bytes, io);
            range::range_read(w2, w.next_seq, asked, files) matches Ok(r) && {
                &&& r.next_seq == w.next_seq + 1
                &&& range_laws::is_shipment(r, shipped, asked)
                &&& range_laws::shipped_mutations(shipped) == seq![f]
                &&& range_laws::raw_concat(range_laws::shipped_mutations(shipped))
                    == range::frame_raw(f)
            }
        }),
{
    let w2 = w.appended(Ok(bytes), io).0;
    let files = files_after(w, before, active, new, bytes, io);
    let seq = w.next_seq;
    law_append_stays_faithful(w, limits, before, active, new, f, bytes, io);
    log_laws::lemma_log_length(w, limits, before);
    log_laws::lemma_log_length(w2, limits, files);
    log_laws::law_readable_tail_serves_any_position(w2, seq, limits, asked, files);
    range_laws::law_fitting_limits_make_progress(w2, seq, asked, files);
    let shipped = range_laws::law_range_covers_its_slots(w2, seq, asked, files);
    assert(mutations(w2, files).subrange(seq as int, seq + 1) =~= seq![f]);
    assert(seq![f].drop_last() =~= Seq::empty());
    assert(range_laws::raw_concat(Seq::empty()) == Seq::<u8>::empty());
    assert(Seq::<u8>::empty() + range::frame_raw(f) =~= range::frame_raw(f));
    shipped
}

/// Earlier positions are served as before: a range over slots that were there
/// before an append holds the same mutations after it, byte for byte.
pub proof fn law_append_changes_no_earlier_slot(
    w: WalView,
    limits: WalRangeLimits,
    before: Seq<SegmentImage>,
    active: SegmentImage,
    new: SegmentImage,
    f: DecodedFrame,
    bytes: Seq<u8>,
    io: AppendIo,
    from_seq: u64,
    asked: WalRangeLimits,
    asked_again: WalRangeLimits,
) -> (shipped: (Seq<ShippedRun>, Seq<ShippedRun>))
    requires
        faithful(w, limits, before),
        written_out(w, before, active, new, f, bytes, io),
        range::range_read(w, from_seq, asked, before) matches Ok(first) && range::range_read(
            w.appended(Ok(bytes), io).0,
            from_seq,
            asked_again,
            files_after(w, before, active, new, bytes, io),
        ) matches Ok(second) && second.next_seq == first.next_seq,
    ensures
        ({
            let first = range::range_read(w, from_seq, asked, before)->Ok_0;
            let second = range::range_read(
                w.appended(Ok(bytes), io).0,
                from_seq,
                asked_again,
                files_after(w, before, active, new, bytes, io),
            )->Ok_0;
            &&& range_laws::is_shipment(first, shipped.0, asked)
            &&& range_laws::is_shipment(second, shipped.1, asked_again)
            &&& range_laws::shipped_mutations(shipped.0) == range_laws::shipped_mutations(
                shipped.1,
            )
        }),
{
    let w2 = w.appended(Ok(bytes), io).0;
    let files = files_after(w, before, active, new, bytes, io);
    law_append_stays_faithful(w, limits, before, active, new, f, bytes, io);
    log_laws::lemma_log_length(w, limits, before);
    let a = range_laws::law_range_covers_its_slots(w, from_seq, asked, before);
    let b = range_laws::law_range_covers_its_slots(w2, from_seq, asked_again, files);
    let next = range::range_read(w, from_seq, asked, before)->Ok_0.next_seq;
    assert(mutations(w2, files).subrange(from_seq as int, next as int) =~= mutations(
        w,
        before,
    ).subrange(from_seq as int, next as int));
    (a, b)
}

/// `l` with what a segment's facts add to it.
pub open spec fn with_facts(l: Ledger, checkpoint: Option<u64>, bytes: u64) -> Ledger {
    match checkpoint {
        Some(_) => Ledger { checkpoint, bytes: bytes as int },
        None => Ledger { bytes: l.bytes + bytes, ..l },
    }
}

pub proof fn lemma_facts_booked(l: Ledger, image: SegmentImage, k: int, facts: SegmentFacts)
    requires
        image.wf(),
        0 <= k <= image.frames@.len(),
        recovery::facts_from(image, k, facts) is Ok,
        facts.bytes <= range::frame_pos(image, k),
        booked_frames(l, image.frames@, k) == with_facts(l, facts.checkpoint, facts.bytes),
    ensures
        ({
            let out = recovery::facts_from(image, k, facts)->Ok_0;
            &&& out.bytes <= image.meta.end
            &&& booked_frames(l, image.frames@, image.frames@.len() as int) == with_facts(
                l,
                out.checkpoint,
                out.bytes,
            )
        }),
    decreases image.frames@.len() - k,
{
    if k < image.frames@.len() {
        let raws = frame::raw_frames(image.frames@);
        frame::lemma_contiguous_index(raws, 4, image.meta.end as int, k);
        if k + 1 < image.frames@.len() {
            frame::lemma_contiguous_index(raws, 4, image.meta.end as int, k + 1);
        }
        let f = image.frames@[k];
        let entry = f.spec_decode()->Ok_0;
        assert(booked_frames(l, image.frames@, k + 1) == booked(
            booked_frames(l, image.frames@, k),
            f,
        ));
        lemma_facts_booked(l, image, k + 1, recovery::facts_with(facts, f, entry));
    }
}

/// The checkpoint that recovery finds in sealed segments is that of the ledger.
pub proof fn lemma_sealed_ledger(images: Seq<SegmentImage>, n: int, bytes: u64)
    requires
        0 <= n <= images.len(),
        segment::images_wf(images),
        forall|j: int| 0 <= j < n ==> recovery::segment_facts(#[trigger] images[j]) is Ok,
        recovery::total_bytes(images, n) + bytes <= u64::MAX,
    ensures
        recovery::sealed_checkpoint(images, n, bytes) == Ok::<(Option<u64>, u64), WalError>(
            (ledger(images, n).checkpoint, (ledger(images, n).bytes + bytes) as u64),
        ),
        0 <= ledger(images, n).bytes <= recovery::total_bytes(images, n),
    decreases n,
{
    if n > 0 {
        let image = images[n - 1];
        let none = SegmentFacts { last_seq: None, checkpoint: None, bytes: 0 };
        let facts = recovery::segment_facts(image)->Ok_0;
        assert(image.wf());
        assert(booked_frames(ledger(images, n - 1), image.frames@, 0) == ledger(images, n - 1));
        lemma_facts_booked(ledger(images, n - 1), image, 0, none);
        lemma_sealed_ledger(images, n - 1, (bytes + facts.bytes) as u64);
    }
}

proof fn lemma_scan_booked(l: Ledger, image: SegmentImage, k: int, s: ActiveScan)
    requires
        image.wf(),
        0 <= k <= image.frames@.len(),
        s.bytes_since_checkpoint <= range::frame_pos(image, k),
        s.kept == k,
        recovery::scanned(image.frames@, k, s).kept == image.frames@.len(),
        booked_frames(l, image.frames@, k) == with_facts(
            l,
            s.last_checkpoint_seq,
            s.bytes_since_checkpoint,
        ),
    ensures
        ({
            let out = recovery::scanned(image.frames@, k, s);
            &&& out.bytes_since_checkpoint <= image.meta.end
            &&& booked_frames(l, image.frames@, image.frames@.len() as int) == with_facts(
                l,
                out.last_checkpoint_seq,
                out.bytes_since_checkpoint,
            )
        }),
    decreases image.frames@.len() - k,
{
    if k < image.frames@.len() {
        let raws = frame::raw_frames(image.frames@);
        frame::lemma_contiguous_index(raws, 4, image.meta.end as int, k);
        if k + 1 < image.frames@.len() {
            frame::lemma_contiguous_index(raws, 4, image.meta.end as int, k + 1);
        }
        assert(image.frames.len() == image.frames@.len());
        let f = image.frames@[k];
        let entry = f.spec_decode()->Ok_0;
        assert(booked_frames(l, image.frames@, k + 1) == booked(
            booked_frames(l, image.frames@, k),
            f,
        ));
        lemma_scan_booked(l, image, k + 1, recovery::scan_kept(s, f, entry));
    }
}

/// Reopening gives the log back: over the files of a log that tells the same
/// story as they do, recovery succeeds and cuts nothing off. The reopened log
/// has the same next sequence number, last checkpoint and bytes since then,
/// serves every range as before, and tells the same story.
pub proof fn law_reopened_log_stays_faithful(
    w: WalView,
    limits: WalRangeLimits,
    images: Seq<SegmentImage>,
    schema: Seq<ComponentSchema>,
    config: WalConfig,
    payload: Seq<u8>,
)
    requires
        faithful(w, limits, images),
        recovery::total_bytes(images, images.len() as int) <= u64::MAX,
    ensures
        recovery::recoverable(images),
        recovery::recovered(images, schema, config, payload) matches Ok(out) && {
            &&& out.truncate_to == w.active_bytes
            &&& out.header is None
            &&& out.wal.next_seq == w.next_seq
            &&& out.wal.last_checkpoint_seq == w.last_checkpoint_seq
            &&& out.wal.bytes_since_checkpoint == w.bytes_since_checkpoint
            &&& forall|from_seq: u64, asked: WalRangeLimits|
                #[trigger] range::range_read(out.wal, from_seq, asked, images)
                    == range::range_read(w, from_seq, asked, images)
            &&& faithful(out.wal, limits, images)
            &&& mutations(out.wal, images) == mutations(w, images)
        },
{
    let n = images.len() as int;
    let active = images.last();
    log_laws::lemma_reopening(w, limits, images, schema, config, payload);
    lemma_active_last(w, limits, images);
    let out = recovery::recovered(images, schema, config, payload)->Ok_0;
    let start = recovery::scan_start(segment::max_view(images.drop_last()));
    let scan = recovery::active_scan(images);
    let l = ledger(images, n - 1);
    assert(active.wf());
    assert(images[n - 1] == active);
    assert(booked_frames(l, active.frames@, 0) == l);
    if active.frames@.len() > 0 {
        let raws = frame::raw_frames(active.frames@);
        frame::lemma_contiguous_index(raws, 4, active.meta.end as int, 0);
    }
    lemma_scan_booked(l, active, 0, start);
    assert(recovery::total_bytes(images, n) == recovery::total_bytes(images, n - 1)
        + active.meta.end);
    lemma_sealed_ledger(images, n - 1, scan.bytes_since_checkpoint);
    assert(recovery::recovered_checkpoint(images, scan) == Ok::<(Option<u64>, u64), WalError>(
        (w.last_checkpoint_seq, w.bytes_since_checkpoint),
    ));
}

/// A rollover that failed may leave its file behind. Where that file holds its
/// whole header, a log opened over it and the others resumes in it, with the
/// same next sequence number, last checkpoint, bytes since then and mutations.
pub proof fn law_leftover_rollover_file_is_taken_up(
    w: WalView,
    limits: WalRangeLimits,
    images: Seq<SegmentImage>,
    new: SegmentImage,
    schema: Seq<ComponentSchema>,
    config: WalConfig,
    payload: Seq<u8>,
)
    requires
        faithful(w, limits, images),
        w.active_start_seq < w.next_seq,
        log_laws::header_only(new, w.next_seq, new.meta.end, w.view),
        log_laws::whole(new),
        recovery::total_bytes(images.push(new), images.len() as int + 1) <= u64::MAX,
    ensures
        recovery::recovered(images.push(new), schema, config, payload) matches Ok(out) && {
            &&& out.truncate_to == new.meta.end
            &&& out.header is None
            &&& out.wal.active_start_seq == w.next_seq
            &&& out.wal.next_seq == w.next_seq
            &&& out.wal.last_checkpoint_seq == w.last_checkpoint_seq
            &&& out.wal.bytes_since_checkpoint == w.bytes_since_checkpoint
            &&& faithful(out.wal, limits, images.push(new))
            &&& mutations(out.wal, images.push(new)) == mutations(w, images)
        },
{
    let done = CleanupIo { removed: Ok(()), synced: Ok(()) };
    let io = RollIo { cleanup: done, opened: Ok(()), prepared: Ok(new.meta.end), rollback: done };
    law_rollover_stays_faithful(w, limits, images, new, io);
    let rolled = w.rolled(io).0;
    law_reopened_log_stays_faithful(rolled, limits, images.push(new), schema, config, payload);
    let out = recovery::recovered(images.push(new), schema, config, payload)->Ok_0;
    assert(images.push(new).last() == new);
    lemma_active_last(out.wal, limits, images.push(new));
}

/// One call on a log, with what the host reports of it and the files that it
/// leaves: `active` is the active file with the frame that was written, `new`
/// the file of the next segment where the call rolls over.
pub enum LogCall {
    Bump,
    Append {
        active: SegmentImage,
        new: SegmentImage,
        frame: DecodedFrame,
        payload: Result<Seq<u8>, WalError>,
        io: AppendIo,
    },
    Acknowledge {
        active: SegmentImage,
        frame: DecodedFrame,
        seq: u64,
        payload: Result<Seq<u8>, WalError>,
        io: AppendIo,
    },
    Roll { new: SegmentImage, io: RollIo },
    Reopen { schema: Seq<ComponentSchema>, config: WalConfig, payload: Seq<u8> },
}

/// Whether writing an entry gets as far as the active file.
pub open spec fn reaches_file(
    w: WalView,
    payload: Result<Seq<u8>, WalError>,
    io: AppendIo,
) -> bool {
    w.cleaned(io.cleanup).1 is Ok && (payload matches Ok(bytes) && bytes.len() <= u32::MAX)
}

impl LogCall {
    /// The log and its files after the call. The file of a rollover that
    /// failed, which stays pending until it is removed, is not one of them.
    pub open spec fn after(self, w: WalView, images: Seq<SegmentImage>) -> (
        WalView,
        Seq<SegmentImage>,
    ) {
        match self {
            LogCall::Bump => (WalView { view: (w.view + 1) as u64, ..w }, images),
            LogCall::Append { active, new, frame, payload, io } => (
                w.appended(payload, io).0,
                if reaches_file(w, payload, io) {
                    files_after(w, images, active, new, payload->Ok_0, io)
                } else {
                    images
                },
            ),
            LogCall::Acknowledge { active, frame, seq, payload, io } => (
                w.acknowledged(seq, payload, io).0,
                if reaches_file(w, payload, io) {
                    with_active(images, active)
                } else {
                    images
                },
            ),
            LogCall::Roll { new, io } => (
                w.rolled(io).0,
                if w.rolled(io).1 is Ok {
                    images.push(new)
                } else {
                    images
                },
            ),
            LogCall::Reopen { schema, config, payload } => (
                recovery::recovered(images, schema, config, payload)->Ok_0.wal,
                images,
            ),
        }
    }

    /// What the call was to write is written: an entry that gets as far as the
    /// active file stands in it, and so does the header of a new segment. The
    /// call is within the machine's limits.
    pub open spec fn carried_out(self, w: WalView, images: Seq<SegmentImage>) -> bool {
        match self {
            LogCall::Bump => w.view < u64::MAX,
            LogCall::Append { active, new, frame, payload, io } => reaches_file(w, payload, io)
                ==> written_out(w, images, active, new, frame, payload->Ok_0, io),
            LogCall::Acknowledge { active, frame, seq, payload, io } => reaches_file(
                w,
                payload,
                io,
            ) ==> checkpointed(w, images, active, frame, seq, payload->Ok_0, io),
            LogCall::Roll { new, io } => w.rolled(io).1 is Ok ==> rolled_over(w, new, io),
            LogCall::Reopen { .. } => recovery::total_bytes(images, images.len() as int)
                <= u64::MAX,
        }
    }

    /// The record that the call adds, if any.
    pub open spec fn added(self, w: WalView) -> Seq<DecodedFrame> {
        match self {
            LogCall::Append { frame, payload, io, .. } => if reaches_file(w, payload, io) {
                seq![frame]
            } else {
                Seq::empty()
            },
            _ => Seq::empty(),
        }
    }
}

/// The log and its files after the calls `calls[..n]`.
pub open spec fn after_calls(
    w: WalView,
    images: Seq<SegmentImage>,
    calls: Seq<LogCall>,
    n: int,
) -> (WalView, Seq<SegmentImage>)
    decreases n,
{
    if n <= 0 {
        (w, images)
    } else {
        let (before, files) = after_calls(w, images, calls, n - 1);
        calls[n - 1].after(before, files)
    }
}

/// Each of `calls` is carried out.
pub open spec fn all_carried_out(
    w: WalView,
    images: Seq<SegmentImage>,
    calls: Seq<LogCall>,
) -> bool {
    forall|n: int|
        0 <= n < calls.len() ==> (#[trigger] calls[n]).carried_out(
            after_calls(w, images, calls, n).0,
            after_calls(w, images, calls, n).1,
        )
}

/// The records that the calls `calls[..n]` add, in order.
pub open spec fn all_added(
    w: WalView,
    images: Seq<SegmentImage>,
    calls: Seq<LogCall>,
    n: int,
) -> Seq<DecodedFrame>
    decreases n,
{
    if n <= 0 {
        Seq::empty()
    } else {
        all_added(w, images, calls, n - 1) + calls[n - 1].added(
            after_calls(w, images, calls, n - 1).0,
        )
    }
}

/// One call leaves the log and its files telling the same story, with the
/// record that it adds at the end.
pub proof fn law_call_stays_faithful(
    w: WalView,
    limits: WalRangeLimits,
    images: Seq<SegmentImage>,
    call: LogCall,
)
    requires
        faithful(w, limits, images),
        call.carried_out(w, images),
    ensures
        faithful(call.after(w, images).0, limits, call.after(w, images).1),
        mutations(call.after(w, images).0, call.after(w, images).1) == mutations(w, images)
            + call.added(w),
{
    let (w2, files) = call.after(w, images);
    match call {
        LogCall::Bump => {
            law_bumped_log_stays_faithful(w, limits, images, w2.view);
        },
        LogCall::Append { active, new, frame, payload, io } => {
            if reaches_file(w, payload, io) {
                law_append_stays_faithful(
                    w,
                    limits,
                    images,
                    active,
                    new,
                    frame,
                    payload->Ok_0,
                    io,
                );
                assert(mutations(w2, files) =~= mutations(w, images) + seq![frame]);
            } else {
                lemma_untouched(w, limits, images, w2);
            }
        },
        LogCall::Acknowledge { active, frame, seq, payload, io } => {
            if reaches_file(w, payload, io) {
                law_acknowledgement_stays_faithful(
                    w,
                    limits,
                    images,
                    active,
                    frame,
                    seq,
                    payload->Ok_0,
                    io,
                );
            } else {
                lemma_untouched(w, limits, images, w2);
            }
        },
        LogCall::Roll { new, io } => {
            if w.rolled(io).1 is Ok {
                law_rollover_stays_faithful(w, limits, images, new, io);
            } else {
                lemma_untouched(w, limits, images, w2);
            }
        },
        LogCall::Reopen { schema, config, payload } => {
            law_reopened_log_stays_faithful(w, limits, images, schema, config, payload);
        },
    }
    assert(mutations(w2, files) =~= mutations(w, images) + call.added(w));
}

/// A call that writes nothing changes at most what is pending.
proof fn lemma_untouched(w: WalView, limits: WalRangeLimits, images: Seq<SegmentImage>, w2: WalView)
    requires
        faithful(w, limits, images),
        w2 == (WalView { pending_roll: w2.pending_roll, ..w }),
    ensures
        faithful(w2, limits, images),
        mutations(w2, images) == mutations(w, images),
{
    assert(log_laws::tail_read(w2, limits, images) == log_laws::tail_read(w, limits, images));
}

/// Any run of calls leaves the log and its files telling the same story: the
/// records that were there before, and then those that the calls added.
pub proof fn law_any_run_stays_faithful(
    w: WalView,
    limits: WalRangeLimits,
    images: Seq<SegmentImage>,
    calls: Seq<LogCall>,
    n: int,
)
    requires
        faithful(w, limits, images),
        all_carried_out(w, images, calls),
        0 <= n <= calls.len(),
    ensures
        ({
            let (w2, files) = after_calls(w, images, calls, n);
            &&& faithful(w2, limits, files)
            &&& mutations(w2, files) == mutations(w, images) + all_added(w, images, calls, n)
        }),
    decreases n,
{
    if n > 0 {
        law_any_run_stays_faithful(w, limits, images, calls, n - 1);
        let (before, files) = after_calls(w, images, calls, n - 1);
        assert(calls[n - 1].carried_out(before, files));
        law_call_stays_faithful(before, limits, files, calls[n - 1]);
    }
    assert(mutations(
        after_calls(w, images, calls, n).0,
        after_calls(w, images, calls, n).1,
    ) =~= mutations(w, images) + all_added(w, images, calls, n));
}

/// What was written is what a reopened log gives back: after any run of calls
/// on a new log, opening its files succeeds and cuts nothing off. The opened
/// log has the next sequence number, last checkpoint and bytes since then of
/// the log that wrote them, and serves every range as that one does. Its
/// records are those that the calls added, in order and numbered from 0.
pub proof fn law_reopened_log_gives_back_any_run(
    w: WalView,
    limits: WalRangeLimits,
    image: SegmentImage,
    calls: Seq<LogCall>,
    schema: Seq<ComponentSchema>,
    config: WalConfig,
    payload: Seq<u8>,
)
    requires
        new_log(w, limits, image),
        all_carried_out(w, seq![image], calls),
        ({
            let files = after_calls(w, seq![image], calls, calls.len() as int).1;
            recovery::total_bytes(files, files.len() as int) <= u64::MAX
        }),
    ensures
        ({
            let (last, files) = after_calls(w, seq![image], calls, calls.len() as int);
            let records = all_added(w, seq![image], calls, calls.len() as int);
            &&& recovery::recoverable(files)
            &&& recovery::recovered(files, schema, config, payload) matches Ok(out) && {
                &&& out.truncate_to == last.active_bytes
                &&& out.header is None
                &&& out.wal.next_seq == last.next_seq
                &&& out.wal.last_checkpoint_seq == last.last_checkpoint_seq
                &&& out.wal.bytes_since_checkpoint == last.bytes_since_checkpoint
                &&& forall|from_seq: u64, asked: WalRangeLimits|
                    #[trigger] range::range_read(out.wal, from_seq, asked, files)
                        == range::range_read(last, from_seq, asked, files)
                &&& mutations(out.wal, files) == records
                &&& out.wal.next_seq == records.len()
                &&& faithful(out.wal, limits, files)
            }
        }),
{
    let (last, files) = after_calls(w, seq![image], calls, calls.len() as int);
    law_new_log_is_faithful(w, limits, image);
    law_any_run_stays_faithful(w, limits, seq![image], calls, calls.len() as int);
    law_reopened_log_stays_faithful(last, limits, files, schema, config, payload);
    log_laws::lemma_log_length(last, limits, files);
    assert(mutations(last, files) =~= all_added(w, seq![image], calls, calls.len() as int));
}

} // verus!
