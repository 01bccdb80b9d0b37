//! Laws on followers.
use crate::apply;
use crate::error::{CodecError, FormatIssue, WalError};
use crate::record::{ComponentId, ReplicationBatch, WalRecord};
use crate::replication;
use crate::replication::{Admission, FollowerError, FollowerView, ReplicationError};
use vstd::prelude::*;

verus! {

/// A poisoned follower stays poisoned: it neither advances nor reads again.
pub proof fn law_poison_is_forever(
    f: FollowerView,
    batch: ReplicationBatch,
    binding: Result<Vec<(ComponentId, ComponentId)>, CodecError>,
    tick: u64,
    outcomes: Seq<Result<(), WalError>>,
    seq: u64,
    outcome: Result<(), WalError>,
)
    requires
        f.poisoned,
    ensures
        f.advanced(batch, binding, tick, outcomes) == (
            f,
            Err::<u64, FollowerError>(FollowerError::Poisoned),
        ),
        f.next(seq, outcome) == (f, Err::<(), FollowerError>(FollowerError::Poisoned)),
        f.readable(seq) == Err::<(), FollowerError>(FollowerError::Poisoned),
{
}

proof fn lemma_advance(
    f: FollowerView,
    records: Seq<WalRecord>,
    i: int,
    tick: u64,
    outcomes: Seq<Result<(), WalError>>,
    k: int,
)
    requires
        !f.poisoned,
        0 <= i,
        forall|j: int| 0 <= j < records.len() ==> (#[trigger] records[j]).seq < u64::MAX,
    ensures
        ({
            let (after, r) = f.advanced_from(records, i, tick, outcomes, k);
            &&& after.applied >= f.applied
            &&& after.poisoned == (r is Err)
            &&& r matches Ok(applied) ==> applied == after.applied
            &&& r is Ok ==> forall|j: int|
                i <= j < records.len() ==> (#[trigger] records[j]).seq < after.applied
        }),
    decreases records.len() - i,
{
    if i < records.len() {
        let record = records[i];
        if record.seq < f.applied {
            lemma_advance(f, records, i + 1, tick, outcomes, k);
        } else if record.seq == f.applied {
            if let Ok(next_tick) = apply::tick_after_apply(record, tick) {
                if outcomes[k] is Ok {
                    let g = FollowerView { applied: (record.seq + 1) as u64, ..f };
                    lemma_advance(g, records, i + 1, next_tick, outcomes, k + 1);
                }
            }
        }
    }
}

/// Advancing never takes the applied prefix back, poisons exactly when it
/// fails, and on success has applied every record of the batch.
pub proof fn law_advance_is_monotone(
    f: FollowerView,
    batch: ReplicationBatch,
    binding: Result<Vec<(ComponentId, ComponentId)>, CodecError>,
    tick: u64,
    outcomes: Seq<Result<(), WalError>>,
)
    requires
        forall|j: int|
            0 <= j < batch.records@.len() ==> (#[trigger] batch.records@[j]).seq < u64::MAX,
    ensures
        ({
            let (after, r) = f.advanced(batch, binding, tick, outcomes);
            &&& after.applied >= f.applied
            &&& after.poisoned == (r is Err)
            &&& r matches Ok(applied) ==> applied == after.applied && forall|j: int|
                0 <= j < batch.records@.len() ==> (#[trigger] batch.records@[j]).seq < applied
        }),
{
    if !f.poisoned {
        lemma_advance(f, batch.records@, 0, tick, outcomes, 0);
    }
}

proof fn lemma_all_skipped(
    f: FollowerView,
    records: Seq<WalRecord>,
    i: int,
    tick: u64,
    outcomes: Seq<Result<(), WalError>>,
)
    requires
        0 <= i,
        forall|j: int| i <= j < records.len() ==> (#[trigger] records[j]).seq < f.applied,
    ensures
        f.advanced_from(records, i, tick, outcomes, 0) == (
            f,
            Ok::<u64, FollowerError>(f.applied),
        ),
        f.due_from(records, i, tick) == 0,
    decreases records.len() - i,
{
    if i < records.len() {
        lemma_all_skipped(f, records, i + 1, tick, outcomes);
    }
}

/// Idempotency is by position: a batch that was applied is skipped as a whole
/// when it comes again, whatever the world's tick, and nothing is applied.
pub proof fn law_repeated_batch_is_skipped(
    f: FollowerView,
    batch: ReplicationBatch,
    binding: Result<Vec<(ComponentId, ComponentId)>, CodecError>,
    tick: u64,
    outcomes: Seq<Result<(), WalError>>,
    later_tick: u64,
    later_outcomes: Seq<Result<(), WalError>>,
)
    requires
        forall|j: int|
            0 <= j < batch.records@.len() ==> (#[trigger] batch.records@[j]).seq < u64::MAX,
        f.advanced(batch, binding, tick, outcomes).1 is Ok,
    ensures
        ({
            let after = f.advanced(batch, binding, tick, outcomes).0;
            &&& after.advanced(batch, binding, later_tick, later_outcomes) == (
                after,
                Ok::<u64, FollowerError>(after.applied),
            )
            &&& after.due_from(batch.records@, 0, later_tick) == 0
        }),
{
    law_advance_is_monotone(f, batch, binding, tick, outcomes);
    let after = f.advanced(batch, binding, tick, outcomes).0;
    lemma_all_skipped(after, batch.records@, 0, later_tick, later_outcomes);
}

/// Reads are admitted exactly on the applied prefix of a healthy follower.
pub proof fn law_reads_cover_applied_prefix(f: FollowerView, seq: u64)
    ensures
        f.readable(seq) is Ok <==> !f.poisoned && seq < f.applied,
        f.readable(seq) matches Err(e) ==> e == if f.poisoned {
            FollowerError::Poisoned
        } else {
            FollowerError::Stale { requested: seq, applied_seq: f.applied }
        },
{
}

proof fn lemma_batch(
    records: Seq<WalRecord>,
    outcomes: Seq<Result<(), WalError>>,
    i: int,
    last: Option<u64>,
)
    requires
        0 <= i <= records.len(),
        replication::outcomes_cover(outcomes, records.len() as int),
        replication::succeeded(outcomes, i),
        last == if i > 0 {
            Some(records[i - 1].seq)
        } else {
            None
        },
    ensures
        match replication::batch_applied(records, outcomes, i, last) {
            Ok(applied) => replication::succeeded(outcomes, records.len() as int) && applied
                == if records.len() > 0 {
                Some(records.last().seq)
            } else {
                None
            },
            Err(e) => exists|k: int|
                0 <= k < records.len() && #[trigger] replication::succeeded(outcomes, k)
                    && k < outcomes.len() && (outcomes[k] matches Err(cause) && stands_for(
                    cause,
                    e,
                )),
        },
    decreases records.len() - i,
{
    if i < records.len() {
        if i == outcomes.len() && i > 0 {
            assert(outcomes[i - 1] is Ok);
        }
        match outcomes[i] {
            Ok(_) => {
                assert(replication::succeeded(outcomes, i + 1));
                lemma_batch(records, outcomes, i + 1, Some(records[i].seq));
            },
            Err(e) => {},
        }
    }
}

/// The batch error `e` tells of the failure `cause`.
pub open spec fn stands_for(cause: WalError, e: ReplicationError) -> bool {
    match e {
        ReplicationError::Format(w) => w == cause && !(cause is Codec),
        ReplicationError::Codec(c) => cause == WalError::Codec(c),
    }
}

/// A batch that is applied as a whole reports the number of its last record,
/// and an empty one none. It fails exactly where a record fails, with the
/// first such failure.
pub proof fn law_batch_reports_its_last_record(
    records: Seq<WalRecord>,
    outcomes: Seq<Result<(), WalError>>,
)
    requires
        replication::outcomes_cover(outcomes, records.len() as int),
    ensures
        match replication::batch_applied(records, outcomes, 0, None) {
            Ok(applied) => replication::succeeded(outcomes, records.len() as int) && applied
                == if records.len() > 0 {
                Some(records.last().seq)
            } else {
                None
            },
            Err(e) => exists|k: int|
                0 <= k < records.len() && #[trigger] replication::succeeded(outcomes, k)
                    && k < outcomes.len() && (outcomes[k] matches Err(cause) && stands_for(
                    cause,
                    e,
                )),
        },
{
    lemma_batch(records, outcomes, 0, None);
}

/// The batch holds a record numbered `seq`.
pub open spec fn holds(records: Seq<WalRecord>, seq: int) -> bool {
    exists|j: int| 0 <= j < records.len() && (#[trigger] records[j]).seq == seq
}

/// What advancing from `f` over `records` must come to.
pub open spec fn soundly_advanced(
    f: FollowerView,
    records: Seq<WalRecord>,
    outcomes: Seq<Result<(), WalError>>,
    after: FollowerView,
    r: Result<u64, FollowerError>,
) -> bool {
    let n = after.applied - f.applied;
    &&& 0 <= n
    &&& forall|j: int| 0 <= j < n ==> #[trigger] outcomes[j] is Ok
    &&& forall|seq: int| f.applied <= seq < after.applied ==> #[trigger] holds(records, seq)
    &&& match r {
        Ok(applied) => applied == after.applied && !after.poisoned && !holds(
            records,
            applied as int,
        ),
        Err(e) => after.poisoned && match e {
            FollowerError::Gap { expected, got } => expected == after.applied && got > expected
                && holds(records, got as int),
            FollowerError::TickRegression { seq, record_tick, world_tick } => seq == after.applied
                && record_tick < world_tick && holds(records, seq as int),
            FollowerError::Apply(cause) => holds(records, after.applied as int) && (outcomes[n]
                == Err::<(), WalError>(cause) || cause == WalError::Format(
                FormatIssue::TickOverflow { seq: after.applied },
            )),
            _ => false,
        },
    }
}

proof fn lemma_soundly_advanced(
    f: FollowerView,
    g: FollowerView,
    records: Seq<WalRecord>,
    i: int,
    tick: u64,
    outcomes: Seq<Result<(), WalError>>,
    k: int,
)
    requires
        !g.poisoned,
        0 <= i <= records.len(),
        k == g.applied - f.applied,
        k >= 0,
        forall|j: int| 0 <= j < records.len() ==> (#[trigger] records[j]).seq < u64::MAX,
        forall|j: int| 0 <= j < k ==> #[trigger] outcomes[j] is Ok,
        forall|seq: int| f.applied <= seq < g.applied ==> #[trigger] holds(records, seq),
        forall|j: int| 0 <= j < i ==> (#[trigger] records[j]).seq < g.applied,
    ensures
        ({
            let (after, r) = g.advanced_from(records, i, tick, outcomes, k);
            soundly_advanced(f, records, outcomes, after, r)
        }),
    decreases records.len() - i,
{
    if i < records.len() {
        let record = records[i];
        assert(holds(records, record.seq as int));
        if record.seq < g.applied {
            lemma_soundly_advanced(f, g, records, i + 1, tick, outcomes, k);
        } else if record.seq == g.applied {
            if let Ok(next_tick) = apply::tick_after_apply(record, tick) {
                if outcomes[k] is Ok {
                    let next = FollowerView { applied: (record.seq + 1) as u64, ..g };
                    lemma_soundly_advanced(f, next, records, i + 1, next_tick, outcomes, k + 1);
                }
            }
        }
    }
}

/// A follower applies the records that it lacks in the order of their numbers,
/// each once: it stands after the last that was applied, having applied every
/// number up to there. On success the batch holds no record that it lacks;
/// otherwise it stopped at the first that is missing, goes back in time or
/// fails, and says so.
pub proof fn law_advance_applies_what_is_lacking(
    f: FollowerView,
    batch: ReplicationBatch,
    binding: Result<Vec<(ComponentId, ComponentId)>, CodecError>,
    tick: u64,
    outcomes: Seq<Result<(), WalError>>,
)
    requires
        !f.poisoned,
        batch.schema@.len() == 0 || binding is Ok,
        forall|j: int|
            0 <= j < batch.records@.len() ==> (#[trigger] batch.records@[j]).seq < u64::MAX,
    ensures
        ({
            let (after, r) = f.advanced(batch, binding, tick, outcomes);
            soundly_advanced(f, batch.records@, outcomes, after, r)
        }),
{
    lemma_soundly_advanced(f, f, batch.records@, 0, tick, outcomes, 0);
}

/// Applying one record moves the follower past it, and only that one is taken.
pub proof fn law_next_record_is_the_expected_one(
    f: FollowerView,
    seq: u64,
    outcome: Result<(), WalError>,
)
    requires
        seq < u64::MAX,
    ensures
        ({
            let (after, r) = f.next(seq, outcome);
            &&& r is Ok <==> !f.poisoned && seq == f.applied && outcome is Ok
            &&& r is Ok ==> after.applied == f.applied + 1
            &&& r is Err ==> after.applied == f.applied
            &&& after.poisoned == (r is Err)
            &&& f.poisoned ==> r == Err::<(), FollowerError>(FollowerError::Poisoned)
            &&& !f.poisoned && seq != f.applied ==> r == Err::<(), FollowerError>(
                FollowerError::Gap { expected: f.applied, got: seq },
            )
            &&& !f.poisoned && seq == f.applied ==> (outcome matches Err(e) ==> r == Err::<
                (),
                FollowerError,
            >(FollowerError::Apply(e)))
        }),
{
}

/// A record is applied exactly where it is the next one and does not go back in
/// time, and skipped exactly where it was applied before. Anything else
/// poisons, and nothing moves the applied prefix.
pub proof fn law_record_is_considered_by_its_number(f: FollowerView, record: WalRecord, tick: u64)
    ensures
        ({
            let (after, r) = f.considered(record, tick);
            let next_tick = record.tick_after + 1;
            &&& r == Ok::<Admission, FollowerError>(Admission::Skip) <==> record.seq < f.applied
            &&& r matches Ok(Admission::Apply { next_tick: t }) ==> t == next_tick
            &&& (r matches Ok(Admission::Apply { .. })) <==> record.seq == f.applied && tick
                <= record.tick_after < u64::MAX
            &&& record.seq > f.applied ==> r == Err::<Admission, FollowerError>(
                FollowerError::Gap { expected: f.applied, got: record.seq },
            )
            &&& record.seq == f.applied && record.tick_after < tick ==> r == Err::<
                Admission,
                FollowerError,
            >(
                FollowerError::TickRegression {
                    seq: record.seq,
                    record_tick: record.tick_after,
                    world_tick: tick,
                },
            )
            &&& after.applied == f.applied
            &&& r is Err ==> after.poisoned
            &&& r is Ok ==> after == f
        }),
{
}

/// A batch whose schema cannot be bound poisons, and none of it is applied.
pub proof fn law_batch_that_cannot_be_bound_poisons(
    f: FollowerView,
    batch: ReplicationBatch,
    e: CodecError,
    tick: u64,
    outcomes: Seq<Result<(), WalError>>,
)
    requires
        !f.poisoned,
        batch.schema@.len() > 0,
    ensures
        ({
            let (after, r) = f.advanced(batch, Err(e), tick, outcomes);
            &&& after.poisoned
            &&& after.applied == f.applied
            &&& r == Err::<u64, FollowerError>(
                FollowerError::Apply(WalError::Format(FormatIssue::Codec(e))),
            )
        }),
{
}

/// A batch that is bound and applied as a whole reports the number of its last
/// record, and an empty one none. A schema that cannot be bound refuses the
/// batch; without a schema the binding does not matter.
pub proof fn law_batch_is_applied_once_bound(
    batch: ReplicationBatch,
    binding: Result<Vec<(ComponentId, ComponentId)>, CodecError>,
    outcomes: Seq<Result<(), WalError>>,
)
    requires
        replication::outcomes_cover(outcomes, batch.records@.len() as int),
    ensures
        ({
            let r = replication::batch_result(batch, binding, outcomes);
            let n = batch.records@.len() as int;
            let unbound = batch.schema@.len() > 0 && binding is Err;
            &&& r is Ok <==> !unbound && replication::succeeded(outcomes, n)
            &&& unbound ==> r == Err::<Option<u64>, ReplicationError>(
                ReplicationError::Codec(binding->Err_0),
            )
            &&& r is Ok && n > 0 ==> r->Ok_0 == Some(batch.records@[n - 1].seq)
            &&& r is Ok && n == 0 ==> r->Ok_0 is None
        }),
{
    law_batch_reports_its_last_record(batch.records@, outcomes);
    if let Err(e) = replication::batch_applied(batch.records@, outcomes, 0, None) {
        let k = choose|k: int|
            0 <= k < batch.records@.len() && #[trigger] replication::succeeded(outcomes, k) && k
                < outcomes.len() && (outcomes[k] matches Err(cause) && stands_for(cause, e));
        assert(outcomes[k] is Err);
    }
}

} // verus!
