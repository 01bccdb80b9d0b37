//! Laws on opening a log whatever its last crash left behind.
use crate::error::{FormatIssue, WalError};
use crate::frame;
use crate::frame::DecodedFrame;
use crate::history_laws;
use crate::history_laws::Ledger;
use crate::range;
use crate::record::ComponentSchema;
use crate::recovery;
use crate::recovery::{ActiveScan, SegmentFacts};
use crate::recovery_laws;
use crate::segment;
use crate::segment::SegmentImage;
use crate::wal::WalConfig;
use crate::wal_laws;
use vstd::prelude::*;

verus! {

/// The frame is sound behind a fence: it decodes, under a view no older.
pub open spec fn is_sound(f: DecodedFrame, fence: u64) -> bool {
    f.spec_decode() is Ok && f.frame.spec_stamp() >= fence
}

/// The fence that frame `k` of the active segment stands behind: the view of the
/// frame before it, or that of the sealed segments.
pub open spec fn fence_at(frames: Seq<DecodedFrame>, k: int, sealed_view: u64) -> u64 {
    if k > 0 {
        frames[k - 1].frame.spec_stamp()
    } else {
        sealed_view
    }
}

/// `n` is the length of the longest prefix of sound frames.
pub open spec fn is_longest_sound(frames: Seq<DecodedFrame>, n: int, sealed_view: u64) -> bool {
    &&& 0 <= n <= frames.len()
    &&& forall|k: int|
        0 <= k < n ==> is_sound(#[trigger] frames[k], fence_at(frames, k, sealed_view))
    &&& n < frames.len() ==> !is_sound(frames[n], fence_at(frames, n, sealed_view))
}

proof fn lemma_scan(image: SegmentImage, k: int, s: ActiveScan, sealed_view: u64, l: Ledger)
    requires
        image.wf(),
        0 <= k <= image.frames@.len(),
        s.kept == k,
        s.fence == fence_at(image.frames@, k, sealed_view),
        s.pos == range::frame_pos(image, k),
        s.bytes_since_checkpoint <= s.pos,
        forall|j: int|
            0 <= j < k ==> is_sound(
                #[trigger] image.frames@[j],
                fence_at(image.frames@, j, sealed_view),
            ),
        s.max_kept_view == 0 || exists|j: int|
            0 <= j < k && (#[trigger] image.frames@[j]).frame.spec_stamp() == s.max_kept_view,
        history_laws::booked_frames(l, image.frames@, k) == history_laws::with_facts(
            l,
            s.last_checkpoint_seq,
            s.bytes_since_checkpoint,
        ),
    ensures
        ({
            let out = recovery::scanned(image.frames@, k, s);
            &&& is_longest_sound(image.frames@, out.kept as int, sealed_view)
            &&& out.pos == range::frame_pos(image, out.kept as int)
            &&& out.bytes_since_checkpoint <= image.meta.end
            &&& out.max_kept_view == 0 || exists|j: int|
                0 <= j < out.kept && (#[trigger] image.frames@[j]).frame.spec_stamp()
                    == out.max_kept_view
            &&& history_laws::booked_frames(l, image.frames@, out.kept as int)
                == history_laws::with_facts(
                l,
                out.last_checkpoint_seq,
                out.bytes_since_checkpoint,
            )
        }),
    decreases image.frames@.len() - k,
{
    assert(image.frames.len() == image.frames@.len());
    let raws = frame::raw_frames(image.frames@);
    if k < image.frames@.len() {
        frame::lemma_contiguous_index(raws, 4, image.meta.end as int, k);
        if k + 1 < image.frames@.len() {
            frame::lemma_contiguous_index(raws, 4, image.meta.end as int, k + 1);
        }
        let f = image.frames@[k];
        if let Ok(entry) = f.spec_decode() {
            if f.frame.spec_stamp() >= s.fence {
                let next = recovery::scan_kept(s, f, entry);
                assert(history_laws::booked_frames(l, image.frames@, k + 1)
                    == history_laws::booked(
                    history_laws::booked_frames(l, image.frames@, k),
                    f,
                ));
                if next.max_kept_view != 0 {
                    if next.max_kept_view == f.frame.spec_stamp() {
                        assert(image.frames@[k].frame.spec_stamp() == next.max_kept_view);
                    } else {
                        let j = choose|j: int|
                            0 <= j < k && (#[trigger] image.frames@[j]).frame.spec_stamp()
                                == s.max_kept_view;
                        assert(image.frames@[j].frame.spec_stamp() == next.max_kept_view);
                    }
                }
                lemma_scan(image, k + 1, next, sealed_view, l);
            }
        }
    }
}

/// The last mutation of the segments `segments[..n]`, none if they hold none.
pub open spec fn newest_mutation(segments: Seq<SegmentImage>, n: int) -> Option<u64>
    decreases n,
{
    if n <= 0 {
        None
    } else {
        let frames = segments[n - 1].frames@;
        match recovery_laws::last_mutation(frames, frames.len() as int) {
            Some(seq) => Some(seq),
            None => newest_mutation(segments, n - 1),
        }
    }
}

proof fn lemma_facts(segment: SegmentImage, k: int, facts: SegmentFacts)
    requires
        0 <= k <= segment.frames@.len(),
        facts.last_seq == recovery_laws::last_mutation(segment.frames@, k),
        recovery::facts_from(segment, k, facts) is Ok,
    ensures
        recovery::facts_from(segment, k, facts)->Ok_0.last_seq == recovery_laws::last_mutation(
            segment.frames@,
            segment.frames@.len() as int,
        ),
    decreases segment.frames@.len() - k,
{
    if k < segment.frames@.len() {
        let f = segment.frames@[k];
        let entry = f.spec_decode()->Ok_0;
        lemma_facts(segment, k + 1, recovery::facts_with(facts, f, entry));
    }
}

proof fn lemma_sealed_next(segments: Seq<SegmentImage>, n: int)
    requires
        0 <= n <= segments.len(),
        recovery::sealed_next(segments, n) is Ok,
        recovery::sealed_counts_on(segments, n),
    ensures
        recovery::sealed_next(segments, n)->Ok_0 == match newest_mutation(segments, n) {
            Some(seq) => seq + 1,
            None => 0,
        },
    decreases n,
{
    if n > 0 {
        let none = SegmentFacts { last_seq: None, checkpoint: None, bytes: 0 };
        lemma_facts(segments[n - 1], 0, none);
        if recovery::segment_facts(segments[n - 1])->Ok_0.last_seq is None {
            lemma_sealed_next(segments, n - 1);
        }
    }
}

/// What the files of a log say of its checkpoints: the last one that is kept,
/// and the bytes of the mutations behind it.
pub open spec fn kept_ledger(segments: Seq<SegmentImage>, kept: int) -> Ledger {
    history_laws::booked_frames(
        history_laws::ledger(segments, segments.len() - 1),
        segments.last().frames@,
        kept,
    )
}

/// Opening a log takes it up where it ended. The active segment is cut behind
/// its longest prefix of sound frames. The next number follows the last
/// mutation that is kept, or where the active segment keeps none that of the
/// sealed ones, and never falls below the segment's own start.
pub proof fn law_opened_log_takes_up_its_end(
    segments: Seq<SegmentImage>,
    schema: Seq<ComponentSchema>,
    config: WalConfig,
    payload: Seq<u8>,
)
    requires
        segments.len() > 0,
        segment::images_wf(segments),
        recovery::recoverable(segments),
        recovery::recovered(segments, schema, config, payload) is Ok,
    ensures
        ({
            let out = recovery::recovered(segments, schema, config, payload)->Ok_0;
            let active = segments.last();
            let n = segments.len() - 1;
            exists|kept: int|
                {
                    &&& #[trigger] is_longest_sound(
                        active.frames@,
                        kept,
                        segment::max_view(segments.drop_last()),
                    )
                    &&& out.truncate_to == range::frame_pos(active, kept)
                    &&& out.wal.next_seq == match recovery_laws::last_mutation(
                        active.frames@,
                        kept,
                    ) {
                        Some(seq) => seq + 1,
                        None => match newest_mutation(segments, n) {
                            Some(seq) => if seq + 1 > active.start_seq {
                                seq + 1
                            } else {
                                active.start_seq as int
                            },
                            None => active.start_seq as int,
                        },
                    }
                    &&& out.header is Some <==> kept == 0
                }
        }),
        ({
            let out = recovery::recovered(segments, schema, config, payload)->Ok_0;
            &&& out.wal.durable_next_seq == out.wal.next_seq
            &&& out.wal.active_start_seq == segments.last().start_seq
            &&& out.wal.schema == schema && out.wal.config == config
            &&& out.wal.pending_roll is None && out.wal.roll_failures == 0 && !out.wal.pinned
        }),
{
    let active = segments.last();
    let n = segments.len() - 1;
    let sealed_view = segment::max_view(segments.drop_last());
    let start = recovery::scan_start(sealed_view);
    let scan = recovery::active_scan(segments);
    assert(active == segments[n]);
    assert(active.wf());
    assert(active.frames.len() == active.frames@.len());
    let raws = frame::raw_frames(active.frames@);
    if active.frames@.len() > 0 {
        frame::lemma_contiguous_index(raws, 4, active.meta.end as int, 0);
    }
    let l = Ledger { checkpoint: None, bytes: 0 };
    assert(history_laws::booked_frames(l, active.frames@, 0) == l);
    lemma_scan(active, 0, start, sealed_view, l);
    recovery_laws::law_recovery_keeps_sound_prefix(active.frames@, sealed_view);
    if scan.last_seq is None {
        lemma_sealed_next(segments, n);
    }
    let kept = scan.kept as int;
    if kept > 0 {
        frame::lemma_contiguous_index(raws, 4, active.meta.end as int, kept - 1);
        if kept < active.frames@.len() {
            frame::lemma_contiguous_index(raws, 4, active.meta.end as int, kept);
        }
    }
    assert(is_longest_sound(active.frames@, kept, sealed_view));
}

proof fn lemma_sealed_facts(segments: Seq<SegmentImage>, n: int, bytes: u64)
    requires
        0 <= n <= segments.len(),
        segment::images_wf(segments),
        recovery::sealed_checkpoint(segments, n, bytes) is Ok,
        recovery::total_bytes(segments, n) + bytes <= u64::MAX,
    ensures
        ({
            let l = history_laws::ledger(segments, n);
            recovery::sealed_checkpoint(segments, n, bytes)->Ok_0.0 is Some ==> {
                &&& recovery::sealed_checkpoint(segments, n, bytes)->Ok_0.0 == l.checkpoint
                &&& recovery::sealed_checkpoint(segments, n, bytes)->Ok_0.1 == l.bytes + bytes
            }
        }),
        recovery::sealed_checkpoint(segments, n, bytes)->Ok_0.0 is None ==> forall|j: int|
            0 <= j < n ==> recovery::segment_facts(#[trigger] segments[j]) is Ok,
    decreases n,
{
    if n > 0 {
        let image = segments[n - 1];
        let none = SegmentFacts { last_seq: None, checkpoint: None, bytes: 0 };
        let facts = recovery::segment_facts(image)->Ok_0;
        assert(image.wf());
        let before = history_laws::ledger(segments, n - 1);
        assert(history_laws::booked_frames(before, image.frames@, 0) == before);
        history_laws::lemma_facts_booked(before, image, 0, none);
        lemma_total(segments, n - 1);
        if facts.checkpoint is None {
            lemma_sealed_facts(segments, n - 1, (bytes + facts.bytes) as u64);
        }
    }
}

proof fn lemma_total(segments: Seq<SegmentImage>, n: int)
    ensures
        recovery::total_bytes(segments, n) >= 0,
    decreases n,
{
    if n > 0 {
        lemma_total(segments, n - 1);
    }
}

/// Opening a log finds its last checkpoint that is kept, and counts the bytes
/// of the mutations behind it.
pub proof fn law_opened_log_finds_its_checkpoint(
    segments: Seq<SegmentImage>,
    schema: Seq<ComponentSchema>,
    config: WalConfig,
    payload: Seq<u8>,
)
    requires
        segments.len() > 0,
        segment::images_wf(segments),
        recovery::recoverable(segments),
        recovery::recovered(segments, schema, config, payload) is Ok,
    ensures
        ({
            let out = recovery::recovered(segments, schema, config, payload)->Ok_0;
            exists|kept: int|
                {
                    &&& #[trigger] is_longest_sound(
                        segments.last().frames@,
                        kept,
                        segment::max_view(segments.drop_last()),
                    )
                    &&& out.wal.last_checkpoint_seq == kept_ledger(segments, kept).checkpoint
                    &&& out.wal.bytes_since_checkpoint == kept_ledger(segments, kept).bytes
                }
        }),
{
    let active = segments.last();
    let n = segments.len() - 1;
    let sealed_view = segment::max_view(segments.drop_last());
    let start = recovery::scan_start(sealed_view);
    let scan = recovery::active_scan(segments);
    assert(active == segments[n]);
    assert(active.wf());
    assert(active.frames.len() == active.frames@.len());
    let raws = frame::raw_frames(active.frames@);
    if active.frames@.len() > 0 {
        frame::lemma_contiguous_index(raws, 4, active.meta.end as int, 0);
    }
    let l = history_laws::ledger(segments, n);
    assert(history_laws::booked_frames(l, active.frames@, 0) == l);
    lemma_scan(active, 0, start, sealed_view, l);
    let kept = scan.kept as int;
    assert(is_longest_sound(active.frames@, kept, sealed_view));
    if scan.last_checkpoint_seq is None {
        assert(recovery::total_bytes(segments, n + 1) == recovery::total_bytes(segments, n)
            + active.meta.end);
        lemma_sealed_facts(segments, n, scan.bytes_since_checkpoint);
        if recovery::sealed_checkpoint(
            segments,
            n,
            scan.bytes_since_checkpoint,
        )->Ok_0.0 is None {
            history_laws::lemma_sealed_ledger(segments, n, scan.bytes_since_checkpoint);
        }
    }
}

/// An opened log resumes the highest view that it ever carried: no higher than
/// the headers of its frames say.
pub proof fn law_opened_log_resumes_no_foreign_view(
    segments: Seq<SegmentImage>,
    schema: Seq<ComponentSchema>,
    config: WalConfig,
    payload: Seq<u8>,
)
    requires
        segments.len() > 0,
        segment::images_wf(segments),
        recovery::recovered(segments, schema, config, payload) is Ok,
    ensures
        ({
            let view = recovery::recovered(segments, schema, config, payload)->Ok_0.wal.view;
            view == 0 || exists|i: int|
                0 <= i < segments.len() && (#[trigger] segments[i]).header_views().contains(view)
        }),
{
    let active = segments.last();
    let n = segments.len() - 1;
    let sealed = segments.drop_last();
    let sealed_view = segment::max_view(sealed);
    let scan = recovery::active_scan(segments);
    let view = recovery::recovered(segments, schema, config, payload)->Ok_0.wal.view;
    assert(active == segments[n]);
    assert(active.wf());
    let raws = frame::raw_frames(active.frames@);
    if active.frames@.len() > 0 {
        frame::lemma_contiguous_index(raws, 4, active.meta.end as int, 0);
    }
    let l = Ledger { checkpoint: None, bytes: 0 };
    assert(history_laws::booked_frames(l, active.frames@, 0) == l);
    lemma_scan(active, 0, recovery::scan_start(sealed_view), sealed_view, l);
    lemma_max_view(sealed);
    if view != 0 {
        if view == sealed_view {
            let i = choose|i: int|
                0 <= i < sealed.len() && (#[trigger] sealed[i]).header_views().contains(view);
            assert(segments[i] == sealed[i]);
        } else {
            let j = choose|j: int|
                0 <= j < scan.kept && (#[trigger] active.frames@[j]).frame.spec_stamp() == view;
            assert(active.header_views()[j] == view);
            assert(segments[n].header_views().contains(view));
        }
    }
}

proof fn lemma_max_view(segments: Seq<SegmentImage>)
    ensures
        ({
            let view = segment::max_view(segments);
            view == 0 || exists|i: int|
                0 <= i < segments.len() && (#[trigger] segments[i]).header_views().contains(view)
        }),
    decreases segments.len(),
{
    if segments.len() > 0 {
        let init = segments.drop_last();
        let last = segments.last();
        let view = segment::max_view(segments);
        lemma_max_view(init);
        segment::lemma_greatest(last.header_views());
        if view != 0 {
            if view == segment::greatest(last.header_views()) {
                assert(segments[segments.len() - 1] == last);
            } else {
                let i = choose|i: int|
                    0 <= i < init.len() && (#[trigger] init[i]).header_views().contains(view);
                assert(segments[i] == init[i]);
            }
        }
    }
}

/// A directory without segments cannot be opened, nor one with a segment of
/// another format.
pub proof fn law_foreign_directory_is_refused(
    segments: Seq<SegmentImage>,
    schema: Seq<ComponentSchema>,
    config: WalConfig,
    payload: Seq<u8>,
)
    ensures
        segments.len() == 0 ==> recovery::recovered(segments, schema, config, payload) == Err::<
            recovery::RecoveryView,
            WalError,
        >(WalError::Format(FormatIssue::Text("no WAL segments found in directory"))),
        (exists|i: int|
            0 <= i < segments.len() && (#[trigger] segments[i]).meta.magic
                == segment::SegmentMagic::Foreign) ==> recovery::recovered(
            segments,
            schema,
            config,
            payload,
        ) matches Err(WalError::Format(FormatIssue::LegacySegment { .. })),
{
    if exists|i: int|
        0 <= i < segments.len() && (#[trigger] segments[i]).meta.magic
            == segment::SegmentMagic::Foreign {
        let i = choose|i: int|
            0 <= i < segments.len() && (#[trigger] segments[i]).meta.magic
                == segment::SegmentMagic::Foreign;
        if i < segments.len() - 1 {
            lemma_magic(segments, segments.len() - 1, i);
        } else {
            lemma_magic_kind(segments, segments.len() - 1);
        }
    }
}

proof fn lemma_magic(segments: Seq<SegmentImage>, n: int, i: int)
    requires
        0 <= i < n <= segments.len(),
        segments[i].meta.magic == segment::SegmentMagic::Foreign,
    ensures
        recovery::magic_error(segments, n) matches Some(
            WalError::Format(FormatIssue::LegacySegment { .. }),
        ),
    decreases n,
{
    if i < n - 1 {
        lemma_magic(segments, n - 1, i);
    }
}

proof fn lemma_magic_kind(segments: Seq<SegmentImage>, n: int)
    ensures
        recovery::magic_error(segments, n) matches Some(e) ==> (e matches WalError::Format(
            FormatIssue::LegacySegment { .. },
        )),
    decreases n,
{
    if n > 0 {
        lemma_magic_kind(segments, n - 1);
    }
}

proof fn lemma_sealed_ends(segments: Seq<SegmentImage>, n: int)
    requires
        0 <= n <= segments.len(),
        forall|i: int, j: int|
            #![trigger segments[i], segments[j]]
            0 <= i < j < n ==> segments[i].start_seq < segments[j].start_seq,
    ensures
        recovery::sealed_ends(segments, n).len() == n,
        forall|i: int|
            0 <= i < n ==> #[trigger] recovery::sealed_ends(segments, n)[i] == (
                segments[i].start_seq,
                segments[i].meta.len,
            ),
    decreases n,
{
    if n > 0 {
        lemma_sealed_ends(segments, n - 1);
        let before = recovery::sealed_ends(segments, n - 1);
        if n > 1 {
            assert(before[n - 2].0 == segments[n - 2].start_seq);
            assert(before.last() == before[n - 2]);
            assert(segments[n - 2].start_seq < segments[n - 1].start_seq);
        }
    }
}

/// An opened log publishes its sealed segments to the ends of their files, and
/// the active one to the end of what is kept.
pub proof fn law_opened_log_publishes_its_files(
    segments: Seq<SegmentImage>,
    schema: Seq<ComponentSchema>,
    config: WalConfig,
    payload: Seq<u8>,
)
    requires
        segments.len() > 0,
        forall|i: int, j: int|
            #![trigger segments[i], segments[j]]
            0 <= i < j < segments.len() ==> segments[i].start_seq < segments[j].start_seq,
        recovery::recovered(segments, schema, config, payload) is Ok,
    ensures
        ({
            let w = recovery::recovered(segments, schema, config, payload)->Ok_0.wal;
            let n = segments.len() - 1;
            &&& w.durable_ends.len() == segments.len()
            &&& forall|i: int|
                0 <= i < n ==> #[trigger] w.durable_ends[i] == (
                    segments[i].start_seq,
                    segments[i].meta.len,
                )
            &&& w.durable_ends[n] == (w.active_start_seq, w.active_bytes)
        }),
{
    let n = segments.len() - 1;
    assert forall|i: int, j: int|
        #![trigger segments[i], segments[j]]
        0 <= i < j < n implies segments[i].start_seq < segments[j].start_seq by {}
    lemma_sealed_ends(segments, n);
    let sealed = recovery::sealed_ends(segments, n);
    assert(segments[n] == segments.last());
    if n > 0 {
        assert(sealed[n - 1].0 == segments[n - 1].start_seq);
        assert(sealed.last() == sealed[n - 1]);
        assert(segments[n - 1].start_seq < segments[n].start_seq);
    }
}

/// Reading a segment to its end fails only for a frame that claims to be larger
/// than any; a frame cut short ends it.
pub proof fn law_only_an_oversized_frame_fails_a_segment(image: SegmentImage)
    ensures
        match image.meta.tail {
            frame::StreamTail::TooLarge { len } => recovery::tail_error(image) == Some(
                WalError::Format(
                    FormatIssue::FrameTooLarge { offset: image.meta.end, len: len as u64 },
                ),
            ),
            _ => recovery::tail_error(image) is None,
        },
{
}

/// The views of a segment's headers are those of its whole frames, and that of
/// a frame whose payload was cut short.
pub proof fn law_cut_frame_still_counts_as_a_view(image: SegmentImage)
    ensures
        forall|k: int|
            0 <= k < image.frames@.len() ==> image.header_views().contains(
                (#[trigger] image.frames@[k]).frame.spec_stamp(),
            ),
        image.meta.tail matches frame::StreamTail::ShortPayload { view }
            ==> image.header_views().contains(view),
        forall|v: u64| #[trigger]
            image.header_views().contains(v) ==> (exists|k: int|
                0 <= k < image.frames@.len() && (#[trigger] image.frames@[k]).frame.spec_stamp()
                    == v) || image.meta.tail == (frame::StreamTail::ShortPayload { view: v }),
{
    let n = image.frames@.len() as int;
    let views = image.header_views();
    assert forall|k: int| 0 <= k < n implies views.contains(
        (#[trigger] image.frames@[k]).frame.spec_stamp(),
    ) by {
        assert(views[k] == image.frames@[k].frame.spec_stamp());
    }
    if let frame::StreamTail::ShortPayload { view } = image.meta.tail {
        assert(views[n] == view);
    }
    assert forall|v: u64| #[trigger] views.contains(v) implies (exists|k: int|
        0 <= k < n && (#[trigger] image.frames@[k]).frame.spec_stamp() == v) || image.meta.tail == (
    frame::StreamTail::ShortPayload { view: v }) by {
        let k = choose|k: int| 0 <= k < views.len() && views[k] == v;
        if k < n {
            assert(image.frames@[k].frame.spec_stamp() == v);
        }
    }
}

/// A segment of which nothing is kept gets a new header under the current view;
/// any other goes on where it was cut.
pub proof fn law_emptied_segment_gets_a_new_header(
    segments: Seq<SegmentImage>,
    schema: Seq<ComponentSchema>,
    config: WalConfig,
    payload: Seq<u8>,
)
    requires
        segments.len() > 0,
        recovery::recovered(segments, schema, config, payload) is Ok,
    ensures
        ({
            let out = recovery::recovered(segments, schema, config, payload)->Ok_0;
            match out.header {
                Some(header) => {
                    &&& header.take(4) == seq![0x4du8, 0x4b, 0x57, 0x33]
                    &&& header.skip(4) == out.wal.framed(payload)
                    &&& out.wal.active_bytes == header.len()
                    &&& out.truncate_to <= 4
                },
                None => out.wal.active_bytes == out.truncate_to && out.truncate_to > 4,
            }
        }),
{
    let out = recovery::recovered(segments, schema, config, payload)->Ok_0;
    if out.header is Some {
        wal_laws::law_entries_are_stamped_with_the_current_view(out.wal, payload);
        crate::frame_laws::law_frame_layout(payload, out.wal.view);
    }
}

} // verus!
