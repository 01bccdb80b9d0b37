//! Follower-side bookkeeping: the applied prefix and poison.
use crate::apply;
use crate::apply::validate_record_tick;
use crate::error::{CodecError, FormatIssue, WalError};
use crate::record::{ComponentId, ReplicationBatch, WalRecord};
use vstd::prelude::*;

verus! {

/// Errors from transport-agnostic replication operations.
#[derive(Clone, Debug, PartialEq, Eq)]
pub enum ReplicationError {
    Format(WalError),
    Codec(CodecError),
}

impl ReplicationError {
    pub open spec fn spec_from_wal(e: WalError) -> ReplicationError {
        match e {
            WalError::Codec(c) => ReplicationError::Codec(c),
            other => ReplicationError::Format(other),
        }
    }

    /// A codec failure stays one; anything else is a format failure.
    pub fn from_wal(e: WalError) -> (r: ReplicationError)
        ensures
            r == ReplicationError::spec_from_wal(e),
    {
        match e {
            WalError::Codec(c) => ReplicationError::Codec(c),
            other => ReplicationError::Format(other),
        }
    }
}

#[derive(Clone, Debug, PartialEq, Eq)]
pub enum FollowerError {
    Poisoned,
    Stale { requested: u64, applied_seq: u64 },
    TickRegression { seq: u64, record_tick: u64, world_tick: u64 },
    Gap { expected: u64, got: u64 },
    Apply(WalError),
}

/// What applying `records[i..]` in order comes to, when the host's
/// applications go as `outcomes[i..]`: the last sequence applied, if any.
pub open spec fn batch_applied(
    records: Seq<WalRecord>,
    outcomes: Seq<Result<(), WalError>>,
    i: int,
    last: Option<u64>,
) -> Result<Option<u64>, ReplicationError>
    decreases records.len() - i,
{
    if i < 0 || i >= records.len() {
        Ok(last)
    } else {
        match outcomes[i] {
            Err(e) => Err(ReplicationError::spec_from_wal(e)),
            Ok(_) => batch_applied(records, outcomes, i + 1, Some(records[i].seq)),
        }
    }
}

/// What applying a batch comes to. Its schema is bound first, if it has one.
pub open spec fn batch_result(
    batch: ReplicationBatch,
    binding: Result<Vec<(ComponentId, ComponentId)>, CodecError>,
    outcomes: Seq<Result<(), WalError>>,
) -> Result<Option<u64>, ReplicationError> {
    if batch.schema@.len() > 0 && binding is Err {
        Err(ReplicationError::Codec(binding->Err_0))
    } else {
        batch_applied(batch.records@, outcomes, 0, None)
    }
}

/// `outcomes` holds one outcome for each of `n` applications, or ends at the
/// failure that stopped them.
pub open spec fn outcomes_cover(outcomes: Seq<Result<(), WalError>>, n: int) -> bool {
    n <= outcomes.len() || (outcomes.len() > 0 && outcomes.last() is Err)
}

/// The first `n` outcomes are there, and all are successes.
pub open spec fn succeeded(outcomes: Seq<Result<(), WalError>>, n: int) -> bool {
    n <= outcomes.len() && forall|j: int| 0 <= j < n ==> #[trigger] outcomes[j] is Ok
}

/// Each of at most `n` successful applications in a row, from the record
/// `applied` on, leaves a next number to expect.
pub open spec fn counts_on(
    applied: u64,
    outcomes: Seq<Result<(), WalError>>,
    n: int,
) -> bool {
    forall|k: int| 0 < k <= n && #[trigger] succeeded(outcomes, k) ==> applied + k <= u64::MAX
}

/// Accounts for the application of a batch to a world. `binding` is what the
/// registry makes of the batch schema, and is not looked at for an empty one;
/// `outcomes` are the outcomes of applying the records in order. Each record is
/// applied on its own: after a failure, earlier records stay applied. Returns
/// the last applied sequence, or `None` if the batch is empty.
pub fn apply_batch(
    batch: &ReplicationBatch,
    binding: &Result<Vec<(ComponentId, ComponentId)>, CodecError>,
    outcomes: &Vec<Result<(), WalError>>,
) -> (r: Result<Option<u64>, ReplicationError>)
    requires
        (batch.schema@.len() > 0 && binding is Err) || outcomes_cover(
            outcomes@,
            batch.records@.len() as int,
        ),
    ensures
        r == if batch.schema@.len() > 0 && binding is Err {
            Err(ReplicationError::Codec(binding->Err_0))
        } else {
            batch_applied(batch.records@, outcomes@, 0, None)
        },
        r == batch_result(*batch, *binding, outcomes@),
{
    if batch.schema.components.len() > 0 {
        if let Err(e) = binding {
            return Err(ReplicationError::Codec(e.duplicate()));
        }
    }
    let mut last: Option<u64> = None;
    let mut i: usize = 0;
    while i < batch.records.len()
        invariant
            i <= batch.records@.len(),
            outcomes_cover(outcomes@, batch.records@.len() as int),
            !(batch.schema@.len() > 0 && binding is Err),
            i <= outcomes@.len(),
            forall|k: int| 0 <= k < i ==> #[trigger] outcomes@[k] is Ok,
            batch_applied(batch.records@, outcomes@, 0, None) == batch_applied(
                batch.records@,
                outcomes@,
                i as int,
                last,
            ),
        decreases batch.records@.len() - i,
    {
        assert(i < outcomes@.len()) by {
            if i == outcomes@.len() {
                assert(outcomes@[outcomes@.len() - 1] is Ok);
            }
        }
        if let Err(e) = &outcomes[i] {
            return Err(ReplicationError::from_wal(e.duplicate()));
        }
        last = Some(batch.records[i].seq);
        i = i + 1;
    }
    Ok(last)
}

/// Follower-side apply state.
///
/// Holds the replica's applied-sequence boundary and poison. Idempotency is by
/// position: records below `applied_seq` are skipped, never re-applied. Any
/// mid-batch apply failure poisons the follower: `advance` and `read_at` then
/// fail forever, and the replica must rejoin via state transfer.
#[derive(Debug, PartialEq, Eq)]
pub struct Follower {
    /// Next sequence the follower expects: all records below are applied.
    high_water: u64,
    poisoned: bool,
}

#[verifier::ext_equal]
pub struct FollowerView {
    pub applied: u64,
    pub poisoned: bool,
}

impl View for Follower {
    type V = FollowerView;

    closed spec fn view(&self) -> FollowerView {
        FollowerView { applied: self.high_water, poisoned: self.poisoned }
    }
}

impl FollowerView {
    pub open spec fn poison(self) -> FollowerView {
        FollowerView { poisoned: true, ..self }
    }

    /// What applying the record `seq` with the host's `outcome` comes to.
    pub open spec fn next(self, seq: u64, outcome: Result<(), WalError>) -> (
        FollowerView,
        Result<(), FollowerError>,
    ) {
        if self.poisoned {
            (self, Err(FollowerError::Poisoned))
        } else if seq != self.applied {
            (self.poison(), Err(FollowerError::Gap { expected: self.applied, got: seq }))
        } else {
            match outcome {
                Err(e) => (self.poison(), Err(FollowerError::Apply(e))),
                Ok(_) => (FollowerView { applied: (seq + 1) as u64, ..self }, Ok(())),
            }
        }
    }

    /// What the follower makes of the next record of a batch, before it is
    /// applied to a world at `tick`.
    pub open spec fn considered(self, record: WalRecord, tick: u64) -> (
        FollowerView,
        Result<Admission, FollowerError>,
    ) {
        if record.seq < self.applied {
            (self, Ok(Admission::Skip))
        } else if record.seq > self.applied {
            (
                self.poison(),
                Err(FollowerError::Gap { expected: self.applied, got: record.seq }),
            )
        } else {
            match apply::tick_after_apply(record, tick) {
                Err(WalError::TickRegression { seq, record_tick, world_tick }) => (
                    self.poison(),
                    Err(FollowerError::TickRegression { seq, record_tick, world_tick }),
                ),
                Err(e) => (self.poison(), Err(FollowerError::Apply(e))),
                Ok(next_tick) => (self, Ok(Admission::Apply { next_tick })),
            }
        }
    }

    /// Advances over `records[i..]` from a world at `tick`; `k` applications
    /// have been made, and the next goes as `outcomes[k]`.
    pub open spec fn advanced_from(
        self,
        records: Seq<WalRecord>,
        i: int,
        tick: u64,
        outcomes: Seq<Result<(), WalError>>,
        k: int,
    ) -> (FollowerView, Result<u64, FollowerError>)
        decreases records.len() - i,
    {
        if i < 0 || i >= records.len() {
            (self, Ok(self.applied))
        } else {
            let record = records[i];
            if record.seq < self.applied {
                self.advanced_from(records, i + 1, tick, outcomes, k)
            } else if record.seq > self.applied {
                (
                    self.poison(),
                    Err(FollowerError::Gap { expected: self.applied, got: record.seq }),
                )
            } else {
                match apply::tick_after_apply(record, tick) {
                    Err(WalError::TickRegression { seq, record_tick, world_tick }) => (
                        self.poison(),
                        Err(FollowerError::TickRegression { seq, record_tick, world_tick }),
                    ),
                    Err(e) => (self.poison(), Err(FollowerError::Apply(e))),
                    Ok(next_tick) => match outcomes[k] {
                        Err(e) => (self.poison(), Err(FollowerError::Apply(e))),
                        Ok(_) => FollowerView {
                            applied: (record.seq + 1) as u64,
                            ..self
                        }.advanced_from(records, i + 1, next_tick, outcomes, k + 1),
                    },
                }
            }
        }
    }

    /// The number of applications that advancing over `records[i..]` asks for
    /// when none fails.
    pub open spec fn due_from(self, records: Seq<WalRecord>, i: int, tick: u64) -> int
        decreases records.len() - i,
    {
        if i < 0 || i >= records.len() || records[i].seq > self.applied {
            0
        } else if records[i].seq < self.applied {
            self.due_from(records, i + 1, tick)
        } else {
            match apply::tick_after_apply(records[i], tick) {
                Err(_) => 0,
                Ok(next_tick) => 1 + FollowerView {
                    applied: (records[i].seq + 1) as u64,
                    ..self
                }.due_from(records, i + 1, next_tick),
            }
        }
    }

    pub open spec fn advanced(
        self,
        batch: ReplicationBatch,
        binding: Result<Vec<(ComponentId, ComponentId)>, CodecError>,
        world_tick: u64,
        outcomes: Seq<Result<(), WalError>>,
    ) -> (FollowerView, Result<u64, FollowerError>) {
        if self.poisoned {
            (self, Err(FollowerError::Poisoned))
        } else if batch.schema@.len() > 0 && binding is Err {
            (
                self.poison(),
                Err(
                    FollowerError::Apply(WalError::Format(FormatIssue::Codec(binding->Err_0))),
                ),
            )
        } else {
            self.advanced_from(batch.records@, 0, world_tick, outcomes, 0)
        }
    }

    /// Whether a read at `seq` is admitted.
    pub open spec fn readable(self, seq: u64) -> Result<(), FollowerError> {
        if self.poisoned {
            Err(FollowerError::Poisoned)
        } else if seq >= self.applied {
            Err(FollowerError::Stale { requested: seq, applied_seq: self.applied })
        } else {
            Ok(())
        }
    }
}

impl Default for Follower {
    fn default() -> (follower: Follower)
        ensures
            follower@ == (FollowerView { applied: 0, poisoned: false }),
    {
        Follower::new()
    }
}

/// What a follower does with the next record of a batch.
#[derive(Clone, Debug, PartialEq, Eq)]
pub enum Admission {
    /// Already applied: nothing to do.
    Skip,
    /// To be applied; the world is at this tick afterwards.
    Apply { next_tick: u64 },
}

impl Follower {
    pub fn new() -> (follower: Follower)
        ensures
            follower@ == (FollowerView { applied: 0, poisoned: false }),
    {
        Follower { high_water: 0, poisoned: false }
    }

    /// The next sequence this follower expects; all records below it are
    /// applied. 0 means nothing applied yet. `read_at(seq)` is valid for
    /// `seq < applied_seq()`.
    pub fn applied_seq(&self) -> (seq: u64)
        ensures
            seq == self@.applied,
    {
        self.high_water
    }

    /// True once a failure has poisoned this follower.
    pub fn is_poisoned(&self) -> (poisoned: bool)
        ensures
            poisoned == self@.poisoned,
    {
        self.poisoned
    }

    pub(crate) fn poison(&mut self)
        ensures
            final(self)@ == old(self)@.poison(),
    {
        self.poisoned = true;
    }

    /// Decides on the next record of a batch, before it is applied to a world
    /// at `tick`. A gap in the log, or a record whose commit tick is below the
    /// world's, poisons: the replica must rejoin.
    pub fn consider(&mut self, record: &WalRecord, tick: u64) -> (r: Result<Admission, FollowerError>)
        ensures
            record.seq < old(self)@.applied ==> r == Ok::<Admission, FollowerError>(
                Admission::Skip,
            ) && final(self)@ == old(self)@,
            record.seq > old(self)@.applied ==> r == Err::<Admission, FollowerError>(
                FollowerError::Gap { expected: old(self)@.applied, got: record.seq },
            ) && final(self)@ == old(self)@.poison(),
            record.seq == old(self)@.applied ==> match apply::tick_after_apply(*record, tick) {
                Err(WalError::TickRegression { seq, record_tick, world_tick }) => r == Err::<
                    Admission,
                    FollowerError,
                >(FollowerError::TickRegression { seq, record_tick, world_tick }) && final(self)@
                    == old(self)@.poison(),
                Err(e) => r == Err::<Admission, FollowerError>(FollowerError::Apply(e))
                    && final(self)@ == old(self)@.poison(),
                Ok(next_tick) => r == Ok::<Admission, FollowerError>(
                    Admission::Apply { next_tick },
                ) && final(self)@ == old(self)@,
            },
            (final(self)@, r) == old(self)@.considered(*record, tick),
    {
        if record.seq < self.high_water {
            return Ok(Admission::Skip);
        }
        if record.seq > self.high_water {
            self.poison();
            return Err(FollowerError::Gap { expected: self.high_water, got: record.seq });
        }
        match validate_record_tick(record, tick) {
            Err(WalError::TickRegression { seq, record_tick, world_tick }) => {
                self.poison();
                Err(FollowerError::TickRegression { seq, record_tick, world_tick })
            },
            Err(e) => {
                self.poison();
                Err(FollowerError::Apply(e))
            },
            Ok(next_tick) => Ok(Admission::Apply { next_tick }),
        }
    }

    /// Accounts for the application of record `seq`. A failure poisons: the
    /// replica diverged from the log.
    pub fn apply_next(&mut self, seq: u64, outcome: Result<(), WalError>) -> (r: Result<
        (),
        FollowerError,
    >)
        requires
            !old(self)@.poisoned && seq == old(self)@.applied && outcome is Ok ==> seq < u64::MAX,
        ensures
            (final(self)@, r) == old(self)@.next(seq, outcome),
    {
        if self.poisoned {
            return Err(FollowerError::Poisoned);
        }
        if seq != self.high_water {
            self.poison();
            return Err(FollowerError::Gap { expected: self.high_water, got: seq });
        }
        match outcome {
            Err(e) => {
                self.poison();
                Err(FollowerError::Apply(e))
            },
            Ok(_) => {
                self.high_water = seq + 1;
                Ok(())
            },
        }
    }

    /// Advances over a transport batch in log order, from a world at
    /// `world_tick`.
    ///
    /// `binding` is what the registry makes of the batch schema, resolved
    /// before any change; it is not looked at for an empty schema. A record
    /// whose commit tick is below the world's current tick is a foreign or
    /// corrupt log and poisons. `outcomes` are the outcomes of applying the
    /// records that are due, in order, up to the first failure.
    ///
    /// Returns the applied prefix, `applied_seq` after the call.
    pub fn advance(
        &mut self,
        batch: &ReplicationBatch,
        binding: &Result<Vec<(ComponentId, ComponentId)>, CodecError>,
        world_tick: u64,
        outcomes: &Vec<Result<(), WalError>>,
    ) -> (r: Result<u64, FollowerError>)
        requires
            old(self)@.poisoned || (batch.schema@.len() > 0 && binding is Err) || {
                let due = old(self)@.due_from(batch.records@, 0, world_tick);
                outcomes_cover(outcomes@, due) && counts_on(old(self)@.applied, outcomes@, due)
            },
        ensures
            (final(self)@, r) == old(self)@.advanced(*batch, *binding, world_tick, outcomes@),
    {
        if self.poisoned {
            return Err(FollowerError::Poisoned);
        }
        if batch.schema.components.len() > 0 {
            if let Err(e) = binding {
                self.poison();
                return Err(
                    FollowerError::Apply(WalError::Format(FormatIssue::Codec(e.duplicate()))),
                );
            }
        }
        let ghost initial = self@;
        let total: usize = outcomes.len();
        let mut tick: u64 = world_tick;
        let mut k: usize = 0;
        let mut i: usize = 0;
        while i < batch.records.len()
            invariant
                i <= batch.records@.len(),
                !initial.poisoned,
                !self@.poisoned,
                initial == old(self)@,
                !(batch.schema@.len() > 0 && binding is Err),
                self@.applied == initial.applied + k,
                counts_on(
                    initial.applied,
                    outcomes@,
                    k + self@.due_from(batch.records@, i as int, tick),
                ),
                k <= outcomes@.len(),
                total == outcomes@.len(),
                forall|j: int| 0 <= j < k ==> #[trigger] outcomes@[j] is Ok,
                outcomes_cover(
                    outcomes@,
                    k + self@.due_from(batch.records@, i as int, tick),
                ),
                initial.advanced_from(batch.records@, 0, world_tick, outcomes@, 0)
                    == self@.advanced_from(batch.records@, i as int, tick, outcomes@, k as int),
            decreases batch.records@.len() - i,
        {
            let record = &batch.records[i];
            match self.consider(record, tick) {
                Err(e) => {
                    return Err(e);
                },
                Ok(Admission::Skip) => {},
                Ok(Admission::Apply { next_tick }) => {
                    proof {
                        lemma_due_nonnegative(
                            FollowerView { applied: (record.seq + 1) as u64, ..self@ },
                            batch.records@,
                            i + 1,
                            next_tick,
                        );
                        if k == outcomes@.len() && k > 0 {
                            assert(outcomes@[k - 1] is Ok);
                        }
                    }
                    match &outcomes[k] {
                        Err(e) => {
                            self.poison();
                            return Err(FollowerError::Apply(e.duplicate()));
                        },
                        Ok(_) => {
                            assert(succeeded(outcomes@, k + 1));
                            self.high_water = record.seq + 1;
                        },
                    }
                    tick = next_tick;
                    k = k + 1;
                },
            }
            i = i + 1;
        }
        Ok(self.high_water)
    }

    /// Bounded-staleness read at a logged prefix: admitted only if the record
    /// `seq` is applied. On `Ok` the caller may read the world.
    pub fn read_at(&self, seq: u64) -> (r: Result<(), FollowerError>)
        ensures
            r == self@.readable(seq),
    {
        if self.poisoned {
            return Err(FollowerError::Poisoned);
        }
        if seq >= self.high_water {
            return Err(FollowerError::Stale { requested: seq, applied_seq: self.high_water });
        }
        Ok(())
    }
}

proof fn lemma_due_nonnegative(f: FollowerView, records: Seq<WalRecord>, i: int, tick: u64)
    ensures
        f.due_from(records, i, tick) >= 0,
    decreases records.len() - i,
{
    if 0 <= i < records.len() && records[i].seq <= f.applied {
        if records[i].seq < f.applied {
            lemma_due_nonnegative(f, records, i + 1, tick);
        } else if let Ok(next_tick) = apply::tick_after_apply(records[i], tick) {
            lemma_due_nonnegative(
                FollowerView { applied: (records[i].seq + 1) as u64, ..f },
                records,
                i + 1,
                next_tick,
            );
        }
    }
}

} // verus!
