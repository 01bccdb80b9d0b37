//! Laws on how a log's operations change it.
use crate::crc;
use crate::ends;
use crate::error::{FormatIssue, IoError, WalError};
use crate::frame;
use crate::frame_laws;
use crate::record::ComponentSchema;
use crate::wal;
use crate::wal::{AppendIo, CleanupIo, RollIo, WalConfig, WalView};
use vstd::prelude::*;

verus! {

/// An append that succeeds returns the sequence number before it, makes it
/// durable, and moves on by one: no number is issued twice.
pub proof fn law_append_issues_the_next_sequence(
    w: WalView,
    payload: Result<Seq<u8>, WalError>,
    io: AppendIo,
)
    requires
        w.wf(),
        w.next_seq < u64::MAX,
        w.appended(payload, io).1 is Ok,
    ensures
        ({
            let (after, r) = w.appended(payload, io);
            &&& r == Ok::<u64, WalError>(w.next_seq)
            &&& after.next_seq == w.next_seq + 1
            &&& after.durable_next_seq == after.next_seq
        }),
{
    let cleaned = w.cleaned(io.cleanup).0;
    if let Ok(bytes) = payload {
        let published = cleaned.written((16 + bytes.len()) as int).published();
        lemma_roll_keeps_sequence(published, io.roll);
    }
}

proof fn lemma_roll_keeps_sequence(w: WalView, io: RollIo)
    ensures
        w.rolled(io).0.next_seq == w.next_seq,
        w.rolled_if_due(io).next_seq == w.next_seq,
        w.durable_next_seq == w.next_seq ==> w.rolled_if_due(io).durable_next_seq == w.next_seq,
        w.rolled_if_due(io).view == w.view,
{
}

/// A frame whose sync failed is not published: what was durable stays as it
/// was, and yet the sequence number is used up.
pub proof fn law_unsynced_append_is_not_published(
    w: WalView,
    bytes: Seq<u8>,
    io: AppendIo,
)
    requires
        w.next_seq < u64::MAX,
        w.cleaned(io.cleanup).1 is Ok,
        bytes.len() <= u32::MAX,
        io.write is Ok,
        io.sync is Err,
    ensures
        ({
            let (after, r) = w.appended(Ok(bytes), io);
            &&& r is Err
            &&& after.durable_next_seq == w.durable_next_seq
            &&& after.durable_ends == w.durable_ends
            &&& after.next_seq == w.next_seq + 1
        }),
{
}

/// An append that fails before its frame is written changes nothing but, at
/// most, that a pending rollover is cleaned up.
pub proof fn law_failed_append_writes_nothing(
    w: WalView,
    payload: Result<Seq<u8>, WalError>,
    io: AppendIo,
)
    requires
        w.cleaned(io.cleanup).1 is Err || payload is Err || io.write is Err,
    ensures
        w.appended(payload, io).1 is Err,
        w.appended(payload, io).0 == w.cleaned(io.cleanup).0,
{
}

/// While an uncommitted rollover cannot be removed, every write is refused
/// with that failure and nothing changes.
pub proof fn law_pending_cleanup_blocks_writes(
    w: WalView,
    error: WalError,
    payload: Result<Seq<u8>, WalError>,
    seq: u64,
    io: AppendIo,
    starts: Seq<u64>,
    removed: Seq<Result<(), IoError>>,
)
    requires
        w.cleaned(io.cleanup).1 == Err::<(), WalError>(error),
    ensures
        w.appended(payload, io) == (w, Err::<u64, WalError>(error)),
        w.acknowledged(seq, payload, io) == (w, Err::<(), WalError>(error)),
        w.deleted(seq, io.cleanup, starts, removed) == (w, Err::<usize, WalError>(error)),
        w.pending_roll is Some,
{
}

/// A rollover that fails keeps the active segment and everything published; at
/// most its new file is left pending.
pub proof fn law_failed_roll_keeps_active_segment(w: WalView, io: RollIo)
    requires
        w.rolled(io).1 is Err,
    ensures
        ({
            let after = w.rolled(io).0;
            &&& after == (WalView { pending_roll: after.pending_roll, ..w })
            &&& after.pending_roll is Some ==> after.pending_roll == w.pending_roll
                || after.pending_roll == Some(w.next_seq)
        }),
{
}

/// A rollover that succeeds starts a segment at the next sequence number and
/// publishes it, and forgets no published segment.
pub proof fn law_roll_publishes_new_segment(w: WalView, io: RollIo, start: u64)
    requires
        w.wf(),
        w.rolled(io).1 is Ok,
    ensures
        ({
            let after = w.rolled(io).0;
            &&& after.active_start_seq == w.next_seq
            &&& after.pending_roll is None
            &&& ends::has_start(after.durable_ends, w.next_seq)
            &&& ends::has_start(w.durable_ends, start) ==> ends::has_start(
                after.durable_ends,
                start,
            )
        }),
{
    if let Ok(bytes) = io.prepared {
        ends::lemma_with_end(w.durable_ends, w.next_seq, bytes);
    }
}

/// Acknowledging a flush resets the byte counter and records its sequence, so
/// that no checkpoint is needed right after it.
pub proof fn law_acknowledged_flush_resets(
    w: WalView,
    seq: u64,
    payload: Result<Seq<u8>, WalError>,
    io: AppendIo,
)
    requires
        w.acknowledged(seq, payload, io).1 is Ok,
    ensures
        ({
            let after = w.acknowledged(seq, payload, io).0;
            &&& after.bytes_since_checkpoint == 0
            &&& after.last_checkpoint_seq == Some(seq)
            &&& !after.checkpoint_needed()
            &&& after.next_seq == w.next_seq
        }),
{
}

/// Deletion takes only segments that lie wholly before `seq`, oldest first,
/// and never the last one.
pub proof fn law_deletion_spares_needed_segments(starts: Seq<u64>, seq: u64, i: int)
    requires
        0 <= i,
    ensures
        ({
            let n = wal::deletable_count(starts, seq, i);
            &&& 0 <= n
            &&& starts.len() > 0 && i < starts.len() ==> i + n < starts.len()
            &&& forall|k: int| i <= k < i + n ==> #[trigger] starts[k + 1] <= seq
            &&& i + n + 1 < starts.len() ==> starts[i + n + 1] > seq
        }),
    decreases starts.len() - i,
{
    if i + 1 < starts.len() && starts[i + 1] <= seq {
        law_deletion_spares_needed_segments(starts, seq, i + 1);
        let n = wal::deletable_count(starts, seq, i);
        assert forall|k: int| i <= k < i + n implies #[trigger] starts[k + 1] <= seq by {
            if k == i {
            }
        }
    }
}

proof fn lemma_deleted_from(
    w: WalView,
    seq: u64,
    starts: Seq<u64>,
    removed: Seq<Result<(), IoError>>,
    i: int,
)
    requires
        0 <= i,
        w.wf(),
        wal::listed(starts, w.active_start_seq),
    ensures
        w.deleted_from(seq, starts, removed, i).0.wf(),
        w.deleted_from(seq, starts, removed, i).0.next_seq == w.next_seq,
    decreases starts.len() - i,
{
    if i + 1 < starts.len() && starts[i + 1] <= seq && removed[i] is Ok {
        assert(starts[i] < starts[starts.len() - 1]);
        ends::lemma_without_start(w.durable_ends, starts[i]);
        let next = WalView {
            durable_ends: ends::without_start(w.durable_ends, starts[i]),
            ..w
        };
        lemma_deleted_from(next, seq, starts, removed, i + 1);
    }
}

/// A log whose active segment is the last one listed stays well formed when
/// segments are deleted: the active one stays published.
pub proof fn law_deletion_keeps_active_segment(
    w: WalView,
    seq: u64,
    cleanup: CleanupIo,
    starts: Seq<u64>,
    removed: Seq<Result<(), IoError>>,
)
    requires
        w.wf(),
        wal::listed(starts, w.active_start_seq),
    ensures
        w.deleted(seq, cleanup, starts, removed).0.wf(),
        w.deleted(seq, cleanup, starts, removed).0.next_seq == w.next_seq,
{
    lemma_deleted_from(w.cleaned(cleanup).0, seq, starts, removed, 0);
}

/// A pinned log that starts at sequence zero, and so serves any follower.
pub open spec fn keeps_prefix(w: WalView) -> bool {
    &&& w.wf()
    &&& w.pinned
    &&& w.durable_ends[0].0 == 0
}

proof fn lemma_published_prefix(w: WalView)
    requires
        ends::ascending(w.durable_ends),
        w.durable_ends.len() > 0,
        w.durable_ends[0].0 == 0,
        w.durable_next_seq <= w.next_seq,
        w.pinned,
    ensures
        keeps_prefix(w.published()),
{
    ends::lemma_with_end(w.durable_ends, w.active_start_seq, w.active_bytes);
    let after = w.published().durable_ends;
    assert(ends::has_start(w.durable_ends, 0)) by {
        assert(w.durable_ends[0].0 == 0);
    }
    assert(ends::has_start(after, 0));
    let i = choose|i: int| 0 <= i < after.len() && (#[trigger] after[i]).0 == 0;
    if i > 0 {
        assert(after[0].0 < after[i].0);
    }
}

proof fn lemma_rolled_prefix(w: WalView, io: RollIo)
    requires
        keeps_prefix(w),
    ensures
        keeps_prefix(w.rolled(io).0),
{
    let (cleaned, r) = w.cleaned(io.cleanup);
    if r is Ok && io.opened is Ok {
        if let Ok(bytes) = io.prepared {
            lemma_published_prefix(
                WalView {
                    pending_roll: None,
                    active_start_seq: cleaned.next_seq,
                    active_bytes: bytes,
                    ..cleaned
                },
            );
        }
    }
}

/// Once followers are served, the log keeps its prefix: no append, rollover,
/// acknowledgement or deletion takes sequence zero away from it, and a
/// deletion removes nothing.
pub proof fn law_pinned_log_keeps_its_prefix(
    w: WalView,
    payload: Result<Seq<u8>, WalError>,
    seq: u64,
    io: AppendIo,
    roll: RollIo,
    starts: Seq<u64>,
    removed: Seq<Result<(), IoError>>,
)
    requires
        keeps_prefix(w),
        w.next_seq < u64::MAX,
    ensures
        keeps_prefix(w.appended(payload, io).0),
        keeps_prefix(w.acknowledged(seq, payload, io).0),
        keeps_prefix(w.rolled(roll).0),
        keeps_prefix(w.deleted(seq, io.cleanup, starts, removed).0),
        w.deleted(seq, io.cleanup, starts, removed).0.durable_ends == w.durable_ends,
        w.deleted(seq, io.cleanup, starts, removed).1 matches Ok(n) ==> n == 0,
        w.deletable(starts, seq) == 0,
{
    lemma_rolled_prefix(w, roll);
    let (cleaned, r) = w.cleaned(io.cleanup);
    if r is Ok {
        if let Ok(bytes) = payload {
            let written = cleaned.written((16 + bytes.len()) as int);
            lemma_published_prefix(written);
            lemma_rolled_prefix(written.published(), io.roll);
            lemma_published_prefix(
                WalView {
                    active_bytes: (cleaned.active_bytes + 16 + bytes.len()) as u64,
                    last_checkpoint_seq: Some(seq),
                    bytes_since_checkpoint: 0,
                    ..cleaned
                },
            );
        }
    }
}

/// A rollover that is pending is cleaned up once its file is gone and that is
/// durable; nothing else of the log changes.
pub proof fn law_cleanup_needs_durable_removal(w: WalView, io: CleanupIo)
    ensures
        ({
            let (after, r) = w.cleaned(io);
            &&& after == (WalView { pending_roll: after.pending_roll, ..w })
            &&& w.pending_roll is None ==> r is Ok && after == w
            &&& w.pending_roll is Some ==> (r is Ok <==> (io.removed is Ok || io.removed == Err::<
                (),
                IoError,
            >(IoError::NotFound)) && io.synced is Ok)
            &&& r is Ok ==> after.pending_roll is None
            &&& r is Err ==> after == w
            &&& r matches Err(e) ==> e matches WalError::Io(cause) && (io.removed == Err::<
                (),
                IoError,
            >(cause) || io.synced == Err::<(), IoError>(cause))
        }),
{
}

/// A rollover succeeds exactly where what was pending is cleaned up and the
/// new file is created and prepared; the log then goes on in it.
pub proof fn law_roll_needs_a_prepared_file(w: WalView, io: RollIo)
    ensures
        ({
            let (after, r) = w.rolled(io);
            &&& r is Ok <==> w.cleaned(io.cleanup).1 is Ok && io.opened is Ok && io.prepared is Ok
            &&& r is Ok ==> {
                &&& after.active_start_seq == w.next_seq
                &&& after.active_bytes == io.prepared->Ok_0
                &&& after.next_seq == w.next_seq
                &&& after.durable_next_seq == w.next_seq
                &&& after.view == w.view
                &&& after.last_checkpoint_seq == w.last_checkpoint_seq
                &&& after.bytes_since_checkpoint == w.bytes_since_checkpoint
            }
            &&& r is Err && io.cleanup.removed is Ok && io.cleanup.synced is Ok ==> (io.opened
                matches Err(e) ==> r == Err::<(), WalError>(WalError::Io(e)))
        }),
{
}

/// An append adds its frame to the active segment and to the bytes since the
/// last checkpoint. It rolls over exactly where that leaves the segment over
/// its budget and the new file can be had; a rollover that fails is counted and
/// costs nothing else.
pub proof fn law_append_accounts_for_its_frame(
    w: WalView,
    bytes: Seq<u8>,
    io: AppendIo,
)
    requires
        w.wf(),
        w.has_room(Ok(bytes), io),
        w.appended(Ok(bytes), io).1 is Ok,
    ensures
        ({
            let after = w.appended(Ok(bytes), io).0;
            let size = w.active_bytes + 16 + bytes.len();
            let over = size > w.config.max_segment_bytes;
            let rolls = over && after.active_start_seq != w.active_start_seq;
            let full = w.cleaned(io.cleanup).0.written((16 + bytes.len()) as int).published();
            &&& after.bytes_since_checkpoint == w.bytes_since_checkpoint + 16 + bytes.len()
            &&& after.last_checkpoint_seq == w.last_checkpoint_seq
            &&& after.view == w.view && after.config == w.config && after.pinned == w.pinned
            &&& !over ==> after.active_start_seq == w.active_start_seq && after.active_bytes == size
                && after.roll_failures == w.roll_failures
            &&& over && full.rolled(io.roll).1 is Ok ==> after.active_start_seq == w.next_seq + 1
                && after.active_bytes == io.roll.prepared->Ok_0 && after.roll_failures
                == w.roll_failures
            &&& over && full.rolled(io.roll).1 is Err ==> after.active_start_seq
                == w.active_start_seq && after.active_bytes == size && after.roll_failures
                == w.roll_failures + 1
            &&& ends::has_start(after.durable_ends, w.active_start_seq)
        }),
{
    let cleaned = w.cleaned(io.cleanup).0;
    let full = cleaned.written((16 + bytes.len()) as int).published();
    ends::lemma_with_end(w.durable_ends, w.active_start_seq, full.active_bytes);
    if let Ok(prepared) = io.roll.prepared {
        ends::lemma_with_end(full.durable_ends, full.next_seq, prepared);
    }
}

/// An append succeeds exactly where what was pending is cleaned up, the record
/// encodes and fits a frame, and the frame is written and synchronized.
pub proof fn law_append_succeeds_once_durable(
    w: WalView,
    payload: Result<Seq<u8>, WalError>,
    io: AppendIo,
)
    ensures
        w.appended(payload, io).1 is Ok <==> w.writes(payload, io) && io.sync is Ok,
        w.acknowledged(w.next_seq, payload, io).1 is Ok <==> w.writes(payload, io) && io.sync is Ok,
        w.writes(payload, io) <==> {
            &&& w.cleaned(io.cleanup).1 is Ok
            &&& payload matches Ok(bytes) && bytes.len() <= u32::MAX
            &&& io.write is Ok
        },
{
}

/// An acknowledgement adds its frame to the active segment, publishes it, and
/// keeps the log's position.
pub proof fn law_acknowledgement_accounts_for_its_frame(
    w: WalView,
    seq: u64,
    bytes: Seq<u8>,
    io: AppendIo,
)
    requires
        w.wf(),
        w.active_bytes + 16 + bytes.len() <= u64::MAX,
        w.acknowledged(seq, Ok(bytes), io).1 is Ok,
    ensures
        ({
            let after = w.acknowledged(seq, Ok(bytes), io).0;
            &&& after.active_bytes == w.active_bytes + 16 + bytes.len()
            &&& after.active_start_seq == w.active_start_seq
            &&& after.durable_next_seq == w.next_seq
            &&& after.view == w.view
            &&& after.durable_ends.contains((w.active_start_seq, after.active_bytes))
        }),
{
    ends::lemma_with_end(
        w.durable_ends,
        w.active_start_seq,
        (w.active_bytes + 16 + bytes.len()) as u64,
    );
}

/// A checkpoint is needed exactly once more bytes than the configured bound
/// were written since the last one.
pub proof fn law_checkpoint_is_needed_over_the_bound(w: WalView)
    ensures
        w.checkpoint_needed() <==> (w.config.max_bytes_between_checkpoints matches Some(max)
            && w.bytes_since_checkpoint > max),
{
}

/// Statistics tell the state of the log and the segment files listed.
pub proof fn law_stats_tell_the_log(w: WalView, starts: Seq<u64>)
    requires
        starts.len() <= usize::MAX,
    ensures
        ({
            let stats = w.stats(starts);
            &&& stats.next_seq == w.next_seq
            &&& stats.segment_count == starts.len()
            &&& stats.oldest_seq is Some <==> starts.len() > 0
            &&& starts.len() > 0 ==> stats.oldest_seq == Some(starts[0])
            &&& stats.bytes_since_checkpoint == w.bytes_since_checkpoint
            &&& stats.last_checkpoint_seq == w.last_checkpoint_seq
            &&& stats.checkpoint_needed <==> w.checkpoint_needed()
            &&& stats.roll_failures == w.roll_failures
        }),
{
}

/// `start` is one of the first `n` of `starts`.
pub open spec fn is_among(starts: Seq<u64>, n: int, start: u64) -> bool {
    exists|j: int| 0 <= j < n && j < starts.len() && #[trigger] starts[j] == start
}

proof fn lemma_deletes(
    w: WalView,
    seq: u64,
    starts: Seq<u64>,
    removed: Seq<Result<(), IoError>>,
    i: int,
)
    requires
        0 <= i <= starts.len() <= usize::MAX,
        starts.len() > 0 ==> i < starts.len(),
        forall|k: int| 0 <= k < i ==> starts[k + 1] <= seq && (#[trigger] removed[k]) is Ok,
        ends::ascending(w.durable_ends),
    ensures
        ({
            let (after, r) = w.deleted_from(seq, starts, removed, i);
            &&& match r {
                Ok(n) => {
                    &&& i <= n
                    &&& starts.len() > 0 ==> n < starts.len()
                    &&& forall|k: int|
                        0 <= k < n ==> starts[k + 1] <= seq && (#[trigger] removed[k]) is Ok
                    &&& n + 1 < starts.len() ==> starts[n + 1] > seq
                    &&& forall|s: u64| #[trigger]
                        ends::has_start(after.durable_ends, s) ==> ends::has_start(
                            w.durable_ends,
                            s,
                        )
                    &&& forall|k: int|
                        i <= k < n ==> !ends::has_start(after.durable_ends, #[trigger] starts[k])
                    &&& forall|s: u64|
                        ends::has_start(w.durable_ends, s) && !is_among(starts, n as int, s)
                            ==> #[trigger] ends::has_start(after.durable_ends, s)
                },
                Err(e) => exists|k: int|
                    i <= k < starts.len() && (#[trigger] removed[k] matches Err(cause) && e
                        == WalError::Io(cause)),
            }
            &&& after.next_seq == w.next_seq
            &&& after.active_start_seq == w.active_start_seq
            &&& after.durable_next_seq == w.durable_next_seq
        }),
    decreases starts.len() - i,
{
    if i + 1 < starts.len() && starts[i + 1] <= seq {
        if removed[i] is Ok {
            let next = WalView {
                durable_ends: ends::without_start(w.durable_ends, starts[i]),
                ..w
            };
            ends::lemma_without_start(w.durable_ends, starts[i]);
            assert forall|s: u64| #[trigger]
                ends::has_start(next.durable_ends, s) implies ends::has_start(w.durable_ends, s) by {
                let e = next.durable_ends;
                let j = choose|j: int| 0 <= j < e.len() && (#[trigger] e[j]).0 == s;
                assert(w.durable_ends.contains(e[j]));
                let l = choose|l: int|
                    0 <= l < w.durable_ends.len() && w.durable_ends[l] == e[j];
                assert(w.durable_ends[l].0 == s);
            }
            lemma_deletes(next, seq, starts, removed, i + 1);
            let (after, r) = next.deleted_from(seq, starts, removed, i + 1);
            if let Ok(n) = r {
                assert forall|k: int| i <= k < n implies !ends::has_start(
                    after.durable_ends,
                    #[trigger] starts[k],
                ) by {
                    if k == i {
                        assert(!ends::has_start(next.durable_ends, starts[i]));
                    }
                }
                assert forall|s: u64|
                    ends::has_start(w.durable_ends, s) && !is_among(
                        starts,
                        n as int,
                        s,
                    ) implies #[trigger] ends::has_start(after.durable_ends, s) by {
                    assert(starts[i] != s);
                    assert(ends::has_start(next.durable_ends, s));
                }
            }
        }
    }
}

/// Deletion removes exactly the oldest segments that lie wholly before `seq`,
/// says how many, and forgets what was published of them and of no other. It
/// stops at the first file that cannot be removed, with that failure.
pub proof fn law_deletion_removes_what_lies_before(
    w: WalView,
    seq: u64,
    cleanup: CleanupIo,
    starts: Seq<u64>,
    removed: Seq<Result<(), IoError>>,
)
    requires
        w.wf(),
        starts.len() <= usize::MAX,
        w.cleaned(cleanup).1 is Ok,
        !w.pinned,
    ensures
        ({
            let (after, r) = w.deleted(seq, cleanup, starts, removed);
            &&& match r {
                Ok(n) => {
                    &&& starts.len() > 0 ==> n < starts.len()
                    &&& forall|k: int|
                        0 <= k < n ==> starts[k + 1] <= seq && (#[trigger] removed[k]) is Ok
                    &&& n + 1 < starts.len() ==> starts[n + 1] > seq
                    &&& forall|s: u64| #[trigger]
                        ends::has_start(after.durable_ends, s) ==> ends::has_start(
                            w.durable_ends,
                            s,
                        )
                    &&& forall|k: int|
                        0 <= k < n ==> !ends::has_start(after.durable_ends, #[trigger] starts[k])
                    &&& forall|s: u64|
                        ends::has_start(w.durable_ends, s) && !is_among(starts, n as int, s)
                            ==> #[trigger] ends::has_start(after.durable_ends, s)
                },
                Err(e) => exists|k: int|
                    0 <= k < starts.len() && (#[trigger] removed[k] matches Err(cause) && e
                        == WalError::Io(cause)),
            }
            &&& after.next_seq == w.next_seq
            &&& after.active_start_seq == w.active_start_seq
            &&& after.durable_next_seq == w.durable_next_seq
        }),
{
    lemma_deletes(w.cleaned(cleanup).0, seq, starts, removed, 0);
}

/// A new log is empty, and starts in view 0 with a segment that holds its
/// header alone.
pub proof fn law_new_log_is_empty(schema: Seq<ComponentSchema>, config: WalConfig, payload: Seq<u8>)
    requires
        payload.len() <= u32::MAX,
    ensures
        ({
            let w = WalView::created(schema, config, payload.len() as int);
            &&& w.wf()
            &&& w.next_seq == 0 && w.durable_next_seq == 0 && w.active_start_seq == 0
            &&& w.active_bytes == w.headed(payload).len()
            &&& w.durable_ends == seq![(0u64, w.active_bytes)]
            &&& w.last_checkpoint_seq is None && w.bytes_since_checkpoint == 0
            &&& w.roll_failures == 0 && w.pending_roll is None && w.view == 0 && !w.pinned
            &&& w.schema == schema && w.config == config
            &&& !w.checkpoint_needed()
        }),
{
    frame_laws::law_frame_layout(payload, 0);
    let w = WalView::created(schema, config, payload.len() as int);
    assert(w.durable_ends[0].0 == 0);
}

/// What is written to the log is stamped with its current view, and holds the
/// entry as it is; so does the header of a new segment.
pub proof fn law_entries_are_stamped_with_the_current_view(w: WalView, payload: Seq<u8>)
    requires
        payload.len() <= u32::MAX,
    ensures
        frame::header_view(w.framed(payload).take(16)) == w.view,
        frame::header_len(w.framed(payload).take(16)) == payload.len(),
        frame::header_crc(w.framed(payload).take(16)) == crc::crc32(payload),
        w.framed(payload).skip(16) == payload,
        w.headed(payload).skip(4) == w.framed(payload),
        w.headed(payload).take(4) == seq![0x4du8, 0x4b, 0x57, 0x33],
{
    frame_laws::law_header_reads_back(payload, w.view);
    frame_laws::law_frame_layout(payload, w.view);
    assert(w.framed(payload).take(16) =~= frame::frame_header(payload, w.view));
    assert(w.headed(payload).skip(4) =~= w.framed(payload));
    assert(w.headed(payload).take(4) =~= seq![0x4du8, 0x4b, 0x57, 0x33]);
}

/// The host is told to prepare a rollover exactly where the append will make
/// one.
pub proof fn law_rollover_is_foretold(w: WalView, bytes: Seq<u8>, io: AppendIo)
    requires
        w.wf(),
        w.has_room(Ok(bytes), io),
        w.appended(Ok(bytes), io).1 is Ok,
        w.active_start_seq <= w.next_seq,
        w.cleaned(io.cleanup).0.written((16 + bytes.len()) as int).published().rolled(
            io.roll,
        ).1 is Ok,
    ensures
        w.overflows(bytes.len() as int) <==> w.appended(Ok(bytes), io).0.active_start_seq
            != w.active_start_seq,
{
    law_append_accounts_for_its_frame(w, bytes, io);
}

/// A write that fails tells why: what was pending could not be cleaned up, the
/// entry did not encode or does not fit a frame, or the file failed. Where the
/// frame was written and only its sync failed, nothing of it is published.
pub proof fn law_failed_write_tells_why(
    w: WalView,
    seq: u64,
    payload: Result<Seq<u8>, WalError>,
    io: AppendIo,
)
    requires
        w.cleaned(io.cleanup).1 is Ok,
    ensures
        ({
            let (a, r) = w.appended(payload, io);
            let (b, s) = w.acknowledged(seq, payload, io);
            let fits = payload matches Ok(bytes) && bytes.len() <= u32::MAX;
            &&& payload matches Err(e) ==> r == Err::<u64, WalError>(e) && s == Err::<
                (),
                WalError,
            >(e)
            &&& payload is Ok && !fits ==> {
                let issue = FormatIssue::EntryTooLarge { len: payload->Ok_0.len() as u64 };
                r == Err::<u64, WalError>(WalError::Format(issue)) && s == Err::<(), WalError>(
                    WalError::Format(issue),
                )
            }
            &&& fits ==> (io.write matches Err(e) ==> r == Err::<u64, WalError>(WalError::Io(e))
                && s == Err::<(), WalError>(WalError::Io(e)))
            &&& fits && io.write is Ok ==> (io.sync matches Err(e) ==> r == Err::<u64, WalError>(
                WalError::Io(e),
            ) && s == Err::<(), WalError>(WalError::Io(e)))
            &&& io.sync is Err || io.write is Err || !fits ==> {
                &&& a.durable_ends == w.durable_ends && a.durable_next_seq == w.durable_next_seq
                &&& b.durable_ends == w.durable_ends && b.durable_next_seq == w.durable_next_seq
                &&& a.active_start_seq == w.active_start_seq && b.next_seq == w.next_seq
            }
            &&& io.write is Err || !fits ==> a.next_seq == w.next_seq && a.active_bytes
                == w.active_bytes && b.active_bytes == w.active_bytes && b.last_checkpoint_seq
                == w.last_checkpoint_seq
        }),
{
}

/// A rollover whose file cannot be prepared is undone: the failure is told and
/// nothing is pending. Where undoing fails too, that is told, and the file stays
/// pending.
pub proof fn law_failed_roll_is_undone_or_pending(w: WalView, io: RollIo)
    requires
        w.cleaned(io.cleanup).1 is Ok,
    ensures
        ({
            let (after, r) = w.rolled(io);
            let undone = (io.rollback.removed is Ok || io.rollback.removed == Err::<(), IoError>(
                IoError::NotFound,
            )) && io.rollback.synced is Ok;
            &&& io.opened matches Err(e) ==> r == Err::<(), WalError>(WalError::Io(e))
                && after.pending_roll is None
            &&& io.opened is Ok && io.prepared is Err && undone ==> r == Err::<(), WalError>(
                io.prepared->Err_0,
            ) && after.pending_roll is None
            &&& io.opened is Ok && io.prepared is Err && !undone ==> r is Err && r->Err_0 is Io
                && after.pending_roll == Some(w.next_seq)
        }),
{
}

} // verus!
