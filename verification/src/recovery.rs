//! Crash recovery: what an existing log directory says about the log.
use crate::ends;
use crate::error::{FormatIssue, WalError};
use crate::frame;
use crate::frame::{DecodedFrame, StreamTail};
use crate::record::{ComponentSchema, WalEntry};
use crate::segment;
use crate::segment::{scan_max_view, SegmentImage};
use crate::views;
use crate::wal;
use crate::wal::{WalConfig, WalView};
use vstd::prelude::*;

verus! {

/// What scanning the active segment has found so far.
pub struct ActiveScan {
    /// Number of frames kept.
    pub kept: usize,
    /// Offset at which the kept frames end.
    pub pos: u64,
    pub fence: u64,
    /// Highest view stamped on a kept frame.
    pub max_kept_view: u64,
    pub last_seq: Option<u64>,
    pub last_checkpoint_seq: Option<u64>,
    pub bytes_since_checkpoint: u64,
}

/// The scan before the first frame, behind a fence at `sealed_view`.
pub open spec fn scan_start(sealed_view: u64) -> ActiveScan {
    ActiveScan {
        kept: 0,
        pos: 4,
        fence: sealed_view,
        max_kept_view: 0,
        last_seq: None,
        last_checkpoint_seq: None,
        bytes_since_checkpoint: 0,
    }
}

/// The scan after keeping frame `f` with `entry`.
pub open spec fn scan_kept(s: ActiveScan, f: DecodedFrame, entry: WalEntry) -> ActiveScan {
    let view = f.frame.spec_stamp();
    ActiveScan {
        kept: (s.kept + 1) as usize,
        pos: f.frame.spec_end() as u64,
        fence: views::max_u64(s.fence, view),
        max_kept_view: views::max_u64(s.max_kept_view, view),
        last_seq: match entry {
            WalEntry::Mutations(record) => Some(record.seq),
            _ => s.last_seq,
        },
        last_checkpoint_seq: match entry {
            WalEntry::Checkpoint { flush_seq } => Some(flush_seq),
            _ => s.last_checkpoint_seq,
        },
        bytes_since_checkpoint: match entry {
            WalEntry::Mutations(_) => (s.bytes_since_checkpoint + f.frame.spec_end()
                - f.frame.offset) as u64,
            WalEntry::Checkpoint { .. } => 0,
            WalEntry::Schema(_) => s.bytes_since_checkpoint,
        },
    }
}

/// Frames are kept up to the first that does not decode, or whose view is
/// older than one already seen: a deposed leader's late write.
pub open spec fn scanned(frames: Seq<DecodedFrame>, k: int, s: ActiveScan) -> ActiveScan
    decreases frames.len() - k,
{
    if k < 0 || k >= frames.len() {
        s
    } else {
        match frames[k].spec_decode() {
            Err(_) => s,
            Ok(entry) => if frames[k].frame.spec_stamp() < s.fence {
                s
            } else {
                scanned(frames, k + 1, scan_kept(s, frames[k], entry))
            },
        }
    }
}

/// Scans the active segment for crash recovery. A frame stamped with a view
/// older than the newest known for the directory (`sealed_view`, or an earlier
/// frame of the segment) ends the scan, as a torn or corrupt frame does.
pub fn scan_active_segment(active: &SegmentImage, sealed_view: u64) -> (scan: ActiveScan)
    requires
        active.wf(),
    ensures
        scan == scanned(active.frames@, 0, scan_start(sealed_view)),
        4 <= scan.pos <= active.meta.end,
        scan.bytes_since_checkpoint <= scan.pos,
        scan.kept <= active.frames@.len(),
{
    let ghost raws = frame::raw_frames(active.frames@);
    let mut scan = ActiveScan {
        kept: 0,
        pos: segment::SEGMENT_MAGIC_SIZE,
        fence: sealed_view,
        max_kept_view: 0,
        last_seq: None,
        last_checkpoint_seq: None,
        bytes_since_checkpoint: 0,
    };
    proof {
        if raws.len() > 0 {
            frame::lemma_contiguous_index(raws, 4, active.meta.end as int, 0);
        }
    }
    let mut k: usize = 0;
    while k < active.frames.len()
        invariant
            k <= active.frames@.len(),
            active.wf(),
            raws == frame::raw_frames(active.frames@),
            scan.kept == k,
            4 <= scan.pos <= active.meta.end,
            k < active.frames@.len() ==> scan.pos == active.frames@[k as int].frame.offset,
            scan.bytes_since_checkpoint <= scan.pos,
            scanned(active.frames@, 0, scan_start(sealed_view)) == scanned(
                active.frames@,
                k as int,
                scan,
            ),
        decreases active.frames@.len() - k,
    {
        let f = &active.frames[k];
        proof {
            frame::lemma_contiguous_index(raws, 4, active.meta.end as int, k as int);
            if k + 1 < raws.len() {
                frame::lemma_contiguous_index(raws, 4, active.meta.end as int, k + 1);
            }
        }
        match f.decode() {
            Err(_) => {
                return scan;
            },
            Ok((entry, _, view)) => {
                if view < scan.fence {
                    return scan;
                }
                let frame_bytes: u64 = f.frame.next_offset() - f.frame.offset;
                let last_seq = match entry {
                    WalEntry::Mutations(record) => Some(record.seq),
                    _ => scan.last_seq,
                };
                let last_checkpoint_seq = match entry {
                    WalEntry::Checkpoint { flush_seq } => Some(*flush_seq),
                    _ => scan.last_checkpoint_seq,
                };
                let bytes_since_checkpoint: u64 = match entry {
                    WalEntry::Mutations(_) => scan.bytes_since_checkpoint + frame_bytes,
                    WalEntry::Checkpoint { .. } => 0,
                    WalEntry::Schema(_) => scan.bytes_since_checkpoint,
                };
                scan = ActiveScan {
                    kept: k + 1,
                    pos: f.frame.next_offset(),
                    fence: views::greater(scan.fence, view),
                    max_kept_view: views::greater(scan.max_kept_view, view),
                    last_seq,
                    last_checkpoint_seq,
                    bytes_since_checkpoint,
                };
            },
        }
        k = k + 1;
    }
    scan
}

/// What reading a sealed segment to its end meets after its whole frames.
pub open spec fn tail_error(segment: SegmentImage) -> Option<WalError> {
    match segment.meta.tail {
        StreamTail::TooLarge { len } => Some(
            WalError::Format(
                FormatIssue::FrameTooLarge { offset: segment.meta.end, len: len as u64 },
            ),
        ),
        _ => None,
    }
}

/// What a segment says about sequence and checkpoint, read to its end: its
/// last mutation, its last checkpoint, and the mutation bytes after that
/// checkpoint (or all of them).
pub struct SegmentFacts {
    pub last_seq: Option<u64>,
    pub checkpoint: Option<u64>,
    pub bytes: u64,
}

pub open spec fn facts_with(facts: SegmentFacts, f: DecodedFrame, entry: WalEntry) -> SegmentFacts {
    match entry {
        WalEntry::Mutations(record) => SegmentFacts {
            last_seq: Some(record.seq),
            bytes: (facts.bytes + f.frame.spec_end() - f.frame.offset) as u64,
            ..facts
        },
        WalEntry::Checkpoint { flush_seq } => SegmentFacts {
            checkpoint: Some(flush_seq),
            bytes: 0,
            ..facts
        },
        WalEntry::Schema(_) => facts,
    }
}

pub open spec fn facts_from(segment: SegmentImage, k: int, facts: SegmentFacts) -> Result<
    SegmentFacts,
    WalError,
>
    decreases segment.frames@.len() - k,
{
    if k < 0 || k >= segment.frames@.len() {
        match tail_error(segment) {
            Some(e) => Err(e),
            None => Ok(facts),
        }
    } else {
        match segment.frames@[k].spec_decode() {
            Err(e) => Err(e),
            Ok(entry) => facts_from(segment, k + 1, facts_with(facts, segment.frames@[k], entry)),
        }
    }
}

pub open spec fn segment_facts(segment: SegmentImage) -> Result<SegmentFacts, WalError> {
    facts_from(segment, 0, SegmentFacts { last_seq: None, checkpoint: None, bytes: 0 })
}

fn read_facts(segment: &SegmentImage) -> (r: Result<SegmentFacts, WalError>)
    requires
        segment.wf(),
    ensures
        r == segment_facts(*segment),
        r matches Ok(facts) ==> facts.bytes <= segment.meta.end,
{
    let ghost raws = frame::raw_frames(segment.frames@);
    let mut facts = SegmentFacts { last_seq: None, checkpoint: None, bytes: 0 };
    proof {
        if raws.len() > 0 {
            frame::lemma_contiguous_index(raws, 4, segment.meta.end as int, 0);
        }
    }
    let mut k: usize = 0;
    while k < segment.frames.len()
        invariant
            k <= segment.frames@.len(),
            segment.wf(),
            raws == frame::raw_frames(segment.frames@),
            facts.bytes <= if k < segment.frames@.len() {
                segment.frames@[k as int].frame.offset
            } else {
                segment.meta.end
            },
            segment_facts(*segment) == facts_from(*segment, k as int, facts),
        decreases segment.frames@.len() - k,
    {
        let f = &segment.frames[k];
        proof {
            frame::lemma_contiguous_index(raws, 4, segment.meta.end as int, k as int);
            if k + 1 < raws.len() {
                frame::lemma_contiguous_index(raws, 4, segment.meta.end as int, k + 1);
            }
        }
        match f.decode() {
            Err(e) => {
                return Err(e);
            },
            Ok((entry, _, _)) => {
                match entry {
                    WalEntry::Mutations(record) => {
                        let frame_bytes: u64 = f.frame.next_offset() - f.frame.offset;
                        facts =
                        SegmentFacts {
                            last_seq: Some(record.seq),
                            checkpoint: facts.checkpoint,
                            bytes: facts.bytes + frame_bytes,
                        };
                    },
                    WalEntry::Checkpoint { flush_seq } => {
                        facts =
                        SegmentFacts {
                            last_seq: facts.last_seq,
                            checkpoint: Some(*flush_seq),
                            bytes: 0,
                        };
                    },
                    WalEntry::Schema(_) => {},
                }
            },
        }
        k = k + 1;
    }
    match segment.meta.tail {
        StreamTail::TooLarge { len } => Err(
            WalError::Format(
                FormatIssue::FrameTooLarge { offset: segment.meta.end, len: len as u64 },
            ),
        ),
        _ => Ok(facts),
    }
}

/// The sequence number after the last mutation of `segments[..n]`, looked for
/// from the newest segment back.
pub open spec fn sealed_next(segments: Seq<SegmentImage>, n: int) -> Result<u64, WalError>
    decreases n,
{
    if n <= 0 {
        Ok(0)
    } else {
        match segment_facts(segments[n - 1]) {
            Err(e) => Err(e),
            Ok(facts) => match facts.last_seq {
                Some(seq) => Ok((seq + 1) as u64),
                None => sealed_next(segments, n - 1),
            },
        }
    }
}

/// The sequence number that the next append gets. Without a mutation in the
/// active segment it is at least that segment's start, which was issued.
pub open spec fn recovered_seq(segments: Seq<SegmentImage>, scan: ActiveScan) -> Result<
    u64,
    WalError,
> {
    match scan.last_seq {
        Some(seq) => Ok((seq + 1) as u64),
        None => match sealed_next(segments, segments.len() - 1) {
            Err(e) => Err(e),
            Ok(seq) => Ok(views::max_u64(seq, segments.last().start_seq)),
        },
    }
}

/// The last checkpoint of `segments[..n]`, and `bytes` plus the mutation bytes
/// that follow it, looked for from the newest segment back.
pub open spec fn sealed_checkpoint(segments: Seq<SegmentImage>, n: int, bytes: u64) -> Result<
    (Option<u64>, u64),
    WalError,
>
    decreases n,
{
    if n <= 0 {
        Ok((None, bytes))
    } else {
        match segment_facts(segments[n - 1]) {
            Err(e) => Err(e),
            Ok(facts) => match facts.checkpoint {
                Some(seq) => Ok((Some(seq), (bytes + facts.bytes) as u64)),
                None => sealed_checkpoint(segments, n - 1, (bytes + facts.bytes) as u64),
            },
        }
    }
}

pub open spec fn recovered_checkpoint(segments: Seq<SegmentImage>, scan: ActiveScan) -> Result<
    (Option<u64>, u64),
    WalError,
> {
    match scan.last_checkpoint_seq {
        Some(seq) => Ok((Some(seq), scan.bytes_since_checkpoint)),
        None => sealed_checkpoint(segments, segments.len() - 1, scan.bytes_since_checkpoint),
    }
}

/// The combined end offsets of `segments[..n]`.
pub open spec fn total_bytes(segments: Seq<SegmentImage>, n: int) -> int
    decreases n,
{
    if n <= 0 {
        0
    } else {
        total_bytes(segments, n - 1) + segments[n - 1].meta.end
    }
}

/// What the active segment, the last one, is found to hold.
pub open spec fn active_scan(segments: Seq<SegmentImage>) -> ActiveScan {
    scanned(
        segments.last().frames@,
        0,
        scan_start(segment::max_view(segments.drop_last())),
    )
}

/// The last mutation of `segments[..n]`, looked for from the newest segment
/// back, leaves a next number.
pub open spec fn sealed_counts_on(segments: Seq<SegmentImage>, n: int) -> bool
    decreases n,
{
    n <= 0 || match segment_facts(segments[n - 1]) {
        Err(_) => true,
        Ok(facts) => match facts.last_seq {
            Some(seq) => seq < u64::MAX,
            None => sealed_counts_on(segments, n - 1),
        },
    }
}

/// The record that the next sequence number follows leaves one.
pub open spec fn counts_on(segments: Seq<SegmentImage>, scan: ActiveScan) -> bool {
    match scan.last_seq {
        Some(seq) => seq < u64::MAX,
        None => sealed_counts_on(segments, segments.len() - 1),
    }
}

/// Machine limits: the last record that is found leaves a next number, and the
/// log's size fits a byte counter.
pub open spec fn recoverable(segments: Seq<SegmentImage>) -> bool {
    &&& total_bytes(segments, segments.len() as int) <= u64::MAX
    &&& segments.len() > 0 && magics_error(segments) is None ==> counts_on(
        segments,
        active_scan(segments),
    )
}

/// Whether the last record that opening a log over `segments` finds, if it
/// gets that far, leaves a next number.
pub fn leaves_next_seq(segments: &Vec<SegmentImage>) -> (b: bool)
    requires
        segment::images_wf(segments@),
    ensures
        b == (segments@.len() > 0 && magics_error(segments@) is None ==> counts_on(
            segments@,
            active_scan(segments@),
        )),
{
    if segments.len() == 0 || validate_magics(segments).is_err() {
        return true;
    }
    let last: usize = segments.len() - 1;
    let sealed_view: u64 = scan_max_view(segments, last);
    let scan = scan_active_segment(&segments[last], sealed_view);
    assert(segments@.take(last as int) =~= segments@.drop_last());
    if let Some(seq) = scan.last_seq {
        return seq < u64::MAX;
    }
    let mut n: usize = last;
    while n > 0
        invariant
            n <= last == segments@.len() - 1,
            segment::images_wf(segments@),
            magics_error(segments@) is None,
            scan == active_scan(segments@),
            scan.last_seq is None,
            sealed_counts_on(segments@, last as int) == sealed_counts_on(segments@, n as int),
        decreases n,
    {
        match read_facts(&segments[n - 1]) {
            Err(_) => {
                return true;
            },
            Ok(facts) => {
                if let Some(seq) = facts.last_seq {
                    return seq < u64::MAX;
                }
            },
        }
        n = n - 1;
    }
    true
}

/// The sequence number that the next append gets.
pub fn recover_next_seq(segments: &Vec<SegmentImage>, scan: &ActiveScan) -> (r: Result<
    u64,
    WalError,
>)
    requires
        segments@.len() > 0,
        segment::images_wf(segments@),
        counts_on(segments@, *scan),
    ensures
        r == recovered_seq(segments@, *scan),
{
    let last: usize = segments.len() - 1;
    if let Some(seq) = scan.last_seq {
        return Ok(seq + 1);
    }
    let start: u64 = segments[last].start_seq;
    let mut n: usize = last;
    while n > 0
        invariant
            n <= last,
            last == segments@.len() - 1,
            start == segments@.last().start_seq,
            segment::images_wf(segments@),
            sealed_counts_on(segments@, n as int),
            scan.last_seq is None,
            sealed_next(segments@, last as int) == sealed_next(segments@, n as int),
        decreases n,
    {
        match read_facts(&segments[n - 1]) {
            Err(e) => {
                return Err(e);
            },
            Ok(facts) => {
                if let Some(seq) = facts.last_seq {
                    return Ok(views::greater(seq + 1, start));
                }
            },
        }
        n = n - 1;
    }
    Ok(views::greater(0, start))
}

/// The last checkpoint and the mutation bytes after it.
pub fn recover_checkpoint(segments: &Vec<SegmentImage>, scan: &ActiveScan) -> (r: Result<
    (Option<u64>, u64),
    WalError,
>)
    requires
        segments@.len() > 0,
        segment::images_wf(segments@),
        total_bytes(segments@, segments@.len() as int) <= u64::MAX,
        scan.bytes_since_checkpoint <= segments@.last().meta.end,
    ensures
        r == recovered_checkpoint(segments@, *scan),
{
    if let Some(seq) = scan.last_checkpoint_seq {
        return Ok((Some(seq), scan.bytes_since_checkpoint));
    }
    let mut n: usize = segments.len() - 1;
    let mut bytes: u64 = scan.bytes_since_checkpoint;
    while n > 0
        invariant
            n <= segments@.len() - 1,
            segment::images_wf(segments@),
            scan.last_checkpoint_seq is None,
            bytes + total_bytes(segments@, n as int) <= u64::MAX,
            sealed_checkpoint(
                segments@,
                segments@.len() - 1,
                scan.bytes_since_checkpoint,
            ) == sealed_checkpoint(segments@, n as int, bytes),
        decreases n,
    {
        match read_facts(&segments[n - 1]) {
            Err(e) => {
                return Err(e);
            },
            Ok(facts) => {
                proof {
                    lemma_total_nonnegative(segments@, n - 1);
                }
                bytes = bytes + facts.bytes;
                if let Some(seq) = facts.checkpoint {
                    return Ok((Some(seq), bytes));
                }
            },
        }
        n = n - 1;
    }
    Ok((None, bytes))
}

proof fn lemma_total_nonnegative(segments: Seq<SegmentImage>, n: int)
    ensures
        total_bytes(segments, n) >= 0,
    decreases n,
{
    if n > 0 {
        lemma_total_nonnegative(segments, n - 1);
    }
}

/// Why the newest of `segments[..n]` with a foreign magic is refused.
pub open spec fn magic_error(segments: Seq<SegmentImage>, n: int) -> Option<WalError>
    decreases n,
{
    if n <= 0 {
        None
    } else {
        match segments[n - 1].spec_magic_error() {
            Some(e) => Some(e),
            None => magic_error(segments, n - 1),
        }
    }
}

/// Sealed segments are looked at before the active one.
pub open spec fn magics_error(segments: Seq<SegmentImage>) -> Option<WalError> {
    match magic_error(segments, segments.len() - 1) {
        Some(e) => Some(e),
        None => segments.last().spec_magic_error(),
    }
}

/// Refuses a directory with a segment of another format, before anything is
/// cut off.
pub fn validate_magics(segments: &Vec<SegmentImage>) -> (r: Result<(), WalError>)
    requires
        segments@.len() > 0,
    ensures
        match magics_error(segments@) {
            Some(e) => r == Err::<(), WalError>(e),
            None => r is Ok,
        },
{
    let last: usize = segments.len() - 1;
    let mut n: usize = last;
    while n > 0
        invariant
            n <= last,
            last == segments@.len() - 1,
            magic_error(segments@, last as int) == magic_error(segments@, n as int),
        decreases n,
    {
        if let Err(e) = segments[n - 1].validate_segment_magic() {
            return Err(e);
        }
        n = n - 1;
    }
    segments[last].validate_segment_magic()
}

/// The published ends of the sealed segments `segments[..n]`: their files'
/// lengths.
pub open spec fn sealed_ends(segments: Seq<SegmentImage>, n: int) -> Seq<(u64, u64)>
    decreases n,
{
    if n <= 0 {
        Seq::empty()
    } else {
        ends::with_end(
            sealed_ends(segments, n - 1),
            segments[n - 1].start_seq,
            segments[n - 1].meta.len,
        )
    }
}

/// The outcome of opening a log.
pub struct RecoveryView {
    pub wal: WalView,
    pub truncate_to: u64,
    pub header: Option<Seq<u8>>,
}

/// What opening a log over `segments` gives.
pub open spec fn recovered(
    segments: Seq<SegmentImage>,
    schema: Seq<ComponentSchema>,
    config: WalConfig,
    payload: Seq<u8>,
) -> Result<RecoveryView, WalError> {
    if segments.len() == 0 {
        Err(WalError::Format(FormatIssue::Text("no WAL segments found in directory")))
    } else if magics_error(segments) is Some {
        Err(magics_error(segments)->Some_0)
    } else {
        let active = segments.last();
        let sealed_view = segment::max_view(segments.drop_last());
        let scan = active_scan(segments);
        let view = views::max_u64(sealed_view, scan.max_kept_view);
        let rewrite = scan.pos <= 4;
        if rewrite && payload.len() > u32::MAX {
            Err(WalError::Format(FormatIssue::EntryTooLarge { len: payload.len() as u64 }))
        } else {
            match recovered_seq(segments, scan) {
                Err(e) => Err(e),
                Ok(next_seq) => match recovered_checkpoint(segments, scan) {
                    Err(e) => Err(e),
                    Ok((last_checkpoint_seq, bytes_since_checkpoint)) => Ok(
                        RecoveryView {
                            wal: WalView {
                                active_start_seq: active.start_seq,
                                active_bytes: if rewrite {
                                    (20 + payload.len()) as u64
                                } else {
                                    scan.pos
                                },
                                next_seq,
                                durable_next_seq: next_seq,
                                durable_ends: sealed_ends(segments, segments.len() - 1),
                                config,
                                schema,
                                last_checkpoint_seq,
                                bytes_since_checkpoint,
                                roll_failures: 0,
                                pending_roll: None,
                                view,
                                pinned: false,
                            }.published(),
                            truncate_to: scan.pos,
                            header: if rewrite {
                                Some(wal::segment_header(payload, view))
                            } else {
                                None
                            },
                        },
                    ),
                },
            }
        }
    }
}

} // verus!
