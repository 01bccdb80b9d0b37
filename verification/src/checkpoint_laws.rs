//! Laws on whole runs of a checkpoint.
use crate::checkpoint;
use crate::checkpoint::{
    CheckpointAction, CheckpointError, CheckpointEvent, CheckpointView, RunCount, Stage,
};
use crate::error::WalError;
use crate::wal::{AppendIo, WalView};
use vstd::prelude::*;

verus! {

/// The checkpoint after the first `n` of `events`.
pub open spec fn after(c: CheckpointView, events: Seq<CheckpointEvent>, n: int) -> CheckpointView
    decreases n,
{
    if n <= 0 {
        c
    } else {
        after(c, events, n - 1).stepped(events[n - 1]).0
    }
}

/// What the host is told after event `k`.
pub open spec fn answer(c: CheckpointView, events: Seq<CheckpointEvent>, k: int) -> Result<
    CheckpointAction,
    CheckpointError,
> {
    after(c, events, k).stepped(events[k]).1
}

/// Each event answers the action that it comes after.
pub open spec fn all_awaited(c: CheckpointView, events: Seq<CheckpointEvent>) -> bool {
    forall|k: int| 0 <= k < events.len() ==> after(c, events, k).awaits(#[trigger] events[k])
}

/// The runs that the store counts after a flush or a compaction.
pub open spec fn counted(event: CheckpointEvent) -> Option<RunCount> {
    match event {
        CheckpointEvent::Flushed(Ok(count)) => Some(count),
        CheckpointEvent::Compacted(Ok(Some(count))) => Some(count),
        _ => None,
    }
}

/// The store counts enough runs for a compaction to be due.
pub open spec fn is_due(event: CheckpointEvent) -> bool {
    counted(event) matches Some(count) && count.runs >= count.trigger
}

/// The event is a failure that ends a checkpoint, told as `e`.
pub open spec fn fails_as(event: CheckpointEvent, e: CheckpointError) -> bool {
    match e {
        CheckpointError::Flush(m) => event == CheckpointEvent::Flushed(Err(m)),
        CheckpointError::Compact(m) => event == CheckpointEvent::Compacted(Err(m)),
        CheckpointError::Wal(w) => event == CheckpointEvent::Acknowledged(Err(w)),
    }
}

/// The event is a failure that ends a checkpoint.
pub open spec fn is_failure(event: CheckpointEvent) -> bool {
    match event {
        CheckpointEvent::Flushed(r) => r is Err,
        CheckpointEvent::Compacted(r) => r is Err,
        CheckpointEvent::IndexSaved(_) => false,
        CheckpointEvent::Acknowledged(r) => r is Err,
    }
}

/// A checkpoint compacts exactly while that is due, fails exactly where the
/// flush, a compaction or the acknowledgement does, and is done only once it
/// is acknowledged. It keeps its indexes throughout.
pub proof fn law_each_event_is_answered(c: CheckpointView, event: CheckpointEvent)
    requires
        c.wf(),
        c.awaits(event),
    ensures
        ({
            let (next, r) = c.stepped(event);
            &&& r == Ok::<CheckpointAction, CheckpointError>(CheckpointAction::Compact) <==> is_due(
                event,
            )
            &&& r matches Err(e) ==> fails_as(event, e) && next.stage is Idle
            &&& is_failure(event) <==> r is Err
            &&& r == Ok::<CheckpointAction, CheckpointError>(CheckpointAction::Done) <==> (
            event matches CheckpointEvent::Acknowledged(Ok(_)))
            &&& next.indexes == c.indexes
            &&& next.wf()
        }),
{
}

/// What a run must say after event `k`, where `m` is the first event after
/// which no compaction is due and `n` the number of registered indexes.
pub open spec fn is_in_turn(
    r: Result<CheckpointAction, CheckpointError>,
    event: CheckpointEvent,
    k: int,
    m: int,
    n: int,
    flush_seq: u64,
) -> bool {
    if k < m {
        r == Ok::<CheckpointAction, CheckpointError>(CheckpointAction::Compact)
    } else if k < m + n {
        r matches Ok(CheckpointAction::SaveIndex { index }) && index == k - m
    } else if k == m + n {
        r == Ok::<CheckpointAction, CheckpointError>(CheckpointAction::Acknowledge { flush_seq })
    } else {
        match event {
            CheckpointEvent::Acknowledged(Ok(_)) => r == Ok::<CheckpointAction, CheckpointError>(
                CheckpointAction::Done,
            ),
            CheckpointEvent::Acknowledged(Err(e)) => r == Err::<CheckpointAction, CheckpointError>(
                CheckpointError::Wal(e),
            ),
            _ => false,
        }
    }
}

/// The stage that a run is in after `k` events.
spec fn stage_at(k: int, m: int, n: int, flush_seq: u64) -> Stage {
    if k == 0 {
        Stage::Flushing { flush_seq }
    } else if k <= m {
        Stage::Compacting { flush_seq }
    } else if k <= m + n {
        Stage::Saving { flush_seq, index: (k - 1 - m) as usize }
    } else if k == m + n + 1 {
        Stage::Acknowledging { flush_seq }
    } else {
        Stage::Idle
    }
}

proof fn lemma_stage(
    c: CheckpointView,
    events: Seq<CheckpointEvent>,
    m: int,
    flush_seq: u64,
    k: int,
)
    requires
        c.wf(),
        c.stage == (Stage::Flushing { flush_seq }),
        all_awaited(c, events),
        0 <= m,
        forall|k: int| 0 <= k < m && k < events.len() ==> is_due(#[trigger] events[k]),
        m < events.len() ==> !is_due(events[m]) && !is_failure(events[m]),
        0 <= k <= events.len(),
    ensures
        after(c, events, k).indexes == c.indexes,
        after(c, events, k).stage == stage_at(k, m, c.indexes.len() as int, flush_seq),
        k <= m + c.indexes.len() + 2,
    decreases k,
{
    if k > 0 {
        lemma_stage(c, events, m, flush_seq, k - 1);
        let event = events[k - 1];
        assert(after(c, events, k - 1).awaits(event));
        if k - 1 < m {
            assert(is_due(events[k - 1]));
        }
    }
}

/// A checkpoint runs in order: the flush, the compactions that are due, then
/// each registered index once and in ascending order, then the acknowledgement
/// of what was flushed, and nothing after that.
pub proof fn law_checkpoint_runs_in_order(
    c: CheckpointView,
    events: Seq<CheckpointEvent>,
    m: int,
    flush_seq: u64,
)
    requires
        c.wf(),
        c.stage == (Stage::Flushing { flush_seq }),
        all_awaited(c, events),
        0 <= m,
        forall|k: int| 0 <= k < m && k < events.len() ==> is_due(#[trigger] events[k]),
        m < events.len() ==> !is_due(events[m]) && !is_failure(events[m]),
    ensures
        forall|k: int|
            0 <= k < events.len() ==> is_in_turn(
                #[trigger] answer(c, events, k),
                events[k],
                k,
                m,
                c.indexes.len() as int,
                flush_seq,
            ),
        events.len() <= m + c.indexes.len() + 2,
{
    lemma_stage(c, events, m, flush_seq, events.len() as int);
    assert forall|k: int| 0 <= k < events.len() implies is_in_turn(
        #[trigger] answer(c, events, k),
        events[k],
        k,
        m,
        c.indexes.len() as int,
        flush_seq,
    ) by {
        lemma_stage(c, events, m, flush_seq, k);
        lemma_stage(c, events, m, flush_seq, k + 1);
        assert(after(c, events, k).awaits(events[k]));
        let s = after(c, events, k);
        if k < m {
            assert(is_due(events[k]));
        }
    }
}

/// The events up to the first after which no compaction is due.
spec fn due_count(events: Seq<CheckpointEvent>, i: int) -> int
    decreases events.len() - i,
{
    if 0 <= i < events.len() && is_due(events[i]) {
        due_count(events, i + 1)
    } else {
        i
    }
}

proof fn lemma_due_count(events: Seq<CheckpointEvent>, i: int)
    requires
        0 <= i <= events.len(),
        forall|k: int| 0 <= k < i ==> is_due(#[trigger] events[k]),
    ensures
        i <= due_count(events, i) <= events.len(),
        forall|k: int| 0 <= k < due_count(events, i) ==> is_due(#[trigger] events[k]),
        due_count(events, i) < events.len() ==> !is_due(events[due_count(events, i)]),
    decreases events.len() - i,
{
    if i < events.len() && is_due(events[i]) {
        lemma_due_count(events, i + 1);
    }
}

/// What is acknowledged was flushed, and every registered index was brought up
/// to date and saved once, in ascending order, after the last compaction and
/// before the acknowledgement, whether or not anything was compacted.
pub proof fn law_acknowledged_after_saving_every_index(
    c: CheckpointView,
    events: Seq<CheckpointEvent>,
    flush_seq: u64,
    k: int,
    acknowledged: u64,
)
    requires
        c.wf(),
        c.stage == (Stage::Flushing { flush_seq }),
        all_awaited(c, events),
        0 <= k < events.len(),
        answer(c, events, k) == Ok::<CheckpointAction, CheckpointError>(
            CheckpointAction::Acknowledge { flush_seq: acknowledged },
        ),
    ensures
        acknowledged == flush_seq,
        ({
            let m = k - c.indexes.len();
            &&& 0 <= m
            &&& forall|j: int|
                m <= j < k ==> (#[trigger] answer(c, events, j) matches Ok(
                    CheckpointAction::SaveIndex { index },
                ) && index == j - m)
            &&& forall|j: int|
                0 <= j < m ==> #[trigger] answer(c, events, j) == Ok::<
                    CheckpointAction,
                    CheckpointError,
                >(CheckpointAction::Compact)
        }),
{
    let m = due_count(events, 0);
    lemma_due_count(events, 0);
    if m < events.len() && is_failure(events[m]) {
        lemma_failure_ends(c, events, flush_seq, m, k);
    } else {
        law_checkpoint_runs_in_order(c, events, m, flush_seq);
        assert(is_in_turn(
            answer(c, events, k),
            events[k],
            k,
            m,
            c.indexes.len() as int,
            flush_seq,
        ));
        assert forall|j: int| 0 <= j < k implies is_in_turn(
            #[trigger] answer(c, events, j),
            events[j],
            j,
            m,
            c.indexes.len() as int,
            flush_seq,
        ) by {}
    }
}

/// Behind a failed flush or compaction nothing is acknowledged.
proof fn lemma_failure_ends(
    c: CheckpointView,
    events: Seq<CheckpointEvent>,
    flush_seq: u64,
    m: int,
    k: int,
)
    requires
        c.wf(),
        c.stage == (Stage::Flushing { flush_seq }),
        all_awaited(c, events),
        0 <= m < events.len(),
        forall|k: int| 0 <= k < m ==> is_due(#[trigger] events[k]),
        is_failure(events[m]),
        0 <= k < events.len(),
    ensures
        !(answer(c, events, k) matches Ok(CheckpointAction::Acknowledge { .. })),
{
    lemma_due_stage(c, events, flush_seq, m);
    assert(after(c, events, m).awaits(events[m]));
    if k < m {
        lemma_due_stage(c, events, flush_seq, k);
        assert(after(c, events, k).awaits(events[k]));
        assert(is_due(events[k]));
    } else if k > m {
        assert(after(c, events, m + 1).stage is Idle);
        assert(after(c, events, m + 1).awaits(events[m + 1]));
    }
}

proof fn lemma_due_stage(
    c: CheckpointView,
    events: Seq<CheckpointEvent>,
    flush_seq: u64,
    m: int,
)
    requires
        c.wf(),
        c.stage == (Stage::Flushing { flush_seq }),
        all_awaited(c, events),
        0 <= m <= events.len(),
        forall|k: int| 0 <= k < m ==> is_due(#[trigger] events[k]),
    ensures
        after(c, events, m).indexes == c.indexes,
        after(c, events, m).stage == if m == 0 {
            Stage::Flushing { flush_seq }
        } else {
            Stage::Compacting { flush_seq }
        },
    decreases m,
{
    if m > 0 {
        lemma_due_stage(c, events, flush_seq, m - 1);
        assert(after(c, events, m - 1).awaits(events[m - 1]));
        assert(is_due(events[m - 1]));
    }
}

/// Flushes join: a checkpoint asks for a flush up to the end of the log, and
/// once that is acknowledged the next one starts where it ended.
pub proof fn law_flushes_join(
    c: CheckpointView,
    w: WalView,
    payload: Result<Seq<u8>, WalError>,
    io: AppendIo,
)
    requires
        w.acknowledged(w.next_seq, payload, io).1 is Ok,
    ensures
        ({
            let after = w.acknowledged(w.next_seq, payload, io).0;
            &&& checkpoint::flush_of(w) matches CheckpointAction::Flush { lo, hi } && hi
                == w.next_seq && (w.last_checkpoint_seq is None ==> lo == 0) && (
            checkpoint::flush_of(after) matches CheckpointAction::Flush { lo: next, .. } && next
                == hi)
            &&& c.started(w).stage == (Stage::Flushing { flush_seq: w.next_seq })
            &&& c.started(w).indexes == c.indexes
        }),
{
}

/// An index that is registered is saved behind those before it, which keep
/// their places.
pub proof fn law_registered_index_comes_last(c: CheckpointView, path: Seq<char>)
    ensures
        ({
            let after = c.registered(path);
            &&& after.indexes.len() == c.indexes.len() + 1
            &&& after.indexes[c.indexes.len() as int] == path
            &&& forall|i: int|
                0 <= i < c.indexes.len() ==> #[trigger] after.indexes[i] == c.indexes[i]
            &&& after.stage == c.stage
        }),
{
}

} // verus!
