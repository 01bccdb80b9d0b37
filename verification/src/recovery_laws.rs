//! Laws on what crash recovery keeps and what it drops.
use crate::frame;
use crate::frame::DecodedFrame;
use crate::record::{ComponentSchema, WalEntry};
use crate::recovery;
use crate::recovery::ActiveScan;
use crate::segment;
use crate::segment::SegmentImage;
use crate::wal::WalConfig;
use vstd::prelude::*;

verus! {

/// Frames `frames[k..n]` decode, and none is stale behind `fence`.
pub open spec fn sound(frames: Seq<DecodedFrame>, k: int, n: int, fence: u64) -> bool
    decreases n - k,
{
    if k >= n {
        true
    } else {
        &&& frames[k].spec_decode() is Ok
        &&& frames[k].frame.spec_stamp() >= fence
        &&& sound(frames, k + 1, n, frames[k].frame.spec_stamp())
    }
}

/// The sequence number of the last mutation of `frames[..n]`.
pub open spec fn last_mutation(frames: Seq<DecodedFrame>, n: int) -> Option<u64>
    decreases n,
{
    if n <= 0 {
        None
    } else {
        match frames[n - 1].spec_decode() {
            Ok(WalEntry::Mutations(record)) => Some(record.seq),
            _ => last_mutation(frames, n - 1),
        }
    }
}

/// The last checkpoint of `frames[..n]`.
pub open spec fn last_checkpoint(frames: Seq<DecodedFrame>, n: int) -> Option<u64>
    decreases n,
{
    if n <= 0 {
        None
    } else {
        match frames[n - 1].spec_decode() {
            Ok(WalEntry::Checkpoint { flush_seq }) => Some(flush_seq),
            _ => last_checkpoint(frames, n - 1),
        }
    }
}

proof fn lemma_scan(frames: Seq<DecodedFrame>, k: int, s: ActiveScan)
    requires
        0 <= k <= frames.len(),
        frames.len() <= usize::MAX,
        s.kept == k,
        s.last_seq == last_mutation(frames, k),
        s.last_checkpoint_seq == last_checkpoint(frames, k),
    ensures
        ({
            let out = recovery::scanned(frames, k, s);
            &&& k <= out.kept <= frames.len()
            &&& sound(frames, k, out.kept as int, s.fence)
            &&& out.last_seq == last_mutation(frames, out.kept as int)
            &&& out.last_checkpoint_seq == last_checkpoint(frames, out.kept as int)
            &&& out.kept < frames.len() ==> frames[out.kept as int].spec_decode() is Err
                || frames[out.kept as int].frame.spec_stamp() < out.fence
            &&& out.kept > k ==> out.pos == frames[out.kept - 1].frame.spec_end() as u64
            &&& out.kept == k ==> out.pos == s.pos
            &&& out.fence >= s.fence
            &&& out.max_kept_view >= s.max_kept_view
            &&& forall|i: int|
                k <= i < out.kept ==> (#[trigger] frames[i]).frame.spec_stamp()
                    <= out.max_kept_view
        }),
    decreases frames.len() - k,
{
    if k < frames.len() {
        if let Ok(entry) = frames[k].spec_decode() {
            if frames[k].frame.spec_stamp() >= s.fence {
                let next = recovery::scan_kept(s, frames[k], entry);
                lemma_scan(frames, k + 1, next);
            }
        }
    }
}

/// Recovery keeps the longest sound prefix of the active segment: every frame
/// kept decodes and none is stale, the first frame dropped does not decode or
/// is stale, and what is recovered is that of the kept frames.
pub proof fn law_recovery_keeps_sound_prefix(frames: Seq<DecodedFrame>, sealed_view: u64)
    requires
        frames.len() <= usize::MAX,
    ensures
        ({
            let out = recovery::scanned(frames, 0, recovery::scan_start(sealed_view));
            &&& out.kept <= frames.len()
            &&& sound(frames, 0, out.kept as int, sealed_view)
            &&& out.kept < frames.len() ==> frames[out.kept as int].spec_decode() is Err
                || frames[out.kept as int].frame.spec_stamp() < out.fence
            &&& out.last_seq == last_mutation(frames, out.kept as int)
            &&& out.last_checkpoint_seq == last_checkpoint(frames, out.kept as int)
        }),
{
    lemma_scan(frames, 0, recovery::scan_start(sealed_view));
}

proof fn lemma_sound_kept(frames: Seq<DecodedFrame>, k: int, s: ActiveScan)
    requires
        0 <= k <= frames.len(),
        frames.len() <= usize::MAX,
        s.kept == k,
        sound(frames, k, frames.len() as int, s.fence),
    ensures
        recovery::scanned(frames, k, s).kept == frames.len(),
    decreases frames.len() - k,
{
    if k < frames.len() {
        let entry = frames[k].spec_decode()->Ok_0;
        lemma_sound_kept(frames, k + 1, recovery::scan_kept(s, frames[k], entry));
    }
}

/// A segment whose frames are all sound is kept whole: recovery drops nothing
/// that was written completely under the current view.
pub proof fn law_sound_segment_is_kept_whole(image: SegmentImage, sealed_view: u64)
    requires
        image.wf(),
        sound(image.frames@, 0, image.frames@.len() as int, sealed_view),
    ensures
        ({
            let out = recovery::scanned(image.frames@, 0, recovery::scan_start(sealed_view));
            &&& out.kept == image.frames@.len()
            &&& out.pos == image.meta.end
            &&& out.last_seq == last_mutation(image.frames@, image.frames@.len() as int)
        }),
{
    let frames = image.frames@;
    assert(image.frames.len() == frames.len());
    lemma_sound_kept(frames, 0, recovery::scan_start(sealed_view));
    lemma_scan(frames, 0, recovery::scan_start(sealed_view));
    let raws = frame::raw_frames(frames);
    if frames.len() > 0 {
        frame::lemma_contiguous_index(raws, 4, image.meta.end as int, frames.len() - 1);
    }
}

proof fn lemma_max_view(segments: Seq<SegmentImage>, i: int, k: int)
    requires
        0 <= i < segments.len(),
        0 <= k < segments[i].frames@.len(),
    ensures
        segments[i].frames@[k].frame.spec_stamp() <= segment::max_view(segments),
    decreases segments.len(),
{
    if i == segments.len() - 1 {
        let headers = segments[i].header_views();
        segment::lemma_greatest(headers);
        assert(headers[k] == segments[i].frames@[k].frame.spec_stamp());
    } else {
        assert(segments.drop_last()[i] == segments[i]);
        lemma_max_view(segments.drop_last(), i, k);
    }
}

/// An opened log resumes at or above every view that a retained frame carries,
/// so that a new frame is never stale.
pub proof fn law_reopened_log_resumes_view(
    segments: Seq<SegmentImage>,
    schema: Seq<ComponentSchema>,
    config: WalConfig,
    payload: Seq<u8>,
    i: int,
    k: int,
)
    requires
        recovery::recovered(segments, schema, config, payload) is Ok,
        segments.len() > 0,
        0 <= i < segments.len(),
        0 <= k < segments[i].frames@.len(),
        i + 1 == segments.len() ==> k < recovery::scanned(
            segments.last().frames@,
            0,
            recovery::scan_start(segment::max_view(segments.drop_last())),
        ).kept,
    ensures
        segments[i].frames@[k].frame.spec_stamp() <= recovery::recovered(
            segments,
            schema,
            config,
            payload,
        )->Ok_0.wal.view,
{
    let sealed = segments.drop_last();
    let frames = segments.last().frames@;
    assert(segments.last().frames.len() == frames.len());
    let start = recovery::scan_start(segment::max_view(sealed));
    lemma_scan(frames, 0, start);
    if i + 1 < segments.len() {
        assert(sealed[i] == segments[i]);
        lemma_max_view(sealed, i, k);
    } else {
        assert(frames[k].frame.spec_stamp() <= recovery::scanned(frames, 0, start).max_kept_view);
    }
}

/// An opened log never hands out a sequence number again: the next one is past
/// the last mutation kept in the active segment and, where that holds none, not
/// below the segment's own start.
pub proof fn law_reopened_log_does_not_reuse_sequences(
    segments: Seq<SegmentImage>,
    schema: Seq<ComponentSchema>,
    config: WalConfig,
    payload: Seq<u8>,
)
    requires
        segments.len() > 0,
        recovery::recoverable(segments),
        recovery::recovered(segments, schema, config, payload) is Ok,
    ensures
        ({
            let w = recovery::recovered(segments, schema, config, payload)->Ok_0.wal;
            let frames = segments.last().frames@;
            let kept = recovery::scanned(
                frames,
                0,
                recovery::scan_start(segment::max_view(segments.drop_last())),
            ).kept as int;
            &&& w.durable_next_seq == w.next_seq
            &&& match last_mutation(frames, kept) {
                Some(seq) => w.next_seq == seq + 1,
                None => w.next_seq >= segments.last().start_seq,
            }
        }),
{
    let frames = segments.last().frames@;
    assert(segments.last().frames.len() == frames.len());
    let start = recovery::scan_start(segment::max_view(segments.drop_last()));
    lemma_scan(frames, 0, start);
}

} // verus!
