//! Laws on journaled ingestion.
use crate::apply::{Codecs, WorldShape};
use crate::crc;
use crate::error::{FormatIssue, IoError, WalError};
use crate::frame;
use crate::ingest;
use crate::ingest::{
    EntryWork, IngestError, IngestView, JournalAt, JournalEntry, JournalIo,
};
use crate::plan;
use crate::plan::{DecodedRun, PlanView};
use crate::plan_laws;
use crate::range::{WalFrameRange, WalRangeLimits};
use crate::replication;
use crate::replication::{FollowerError, FollowerView};
use vstd::prelude::*;

verus! {

/// One ingestion: the range, what the host did with it, and the encoded entry
/// where it is journaled.
pub struct Ingestion {
    pub history: Seq<u8>,
    pub range: WalFrameRange,
    pub decoded: Seq<DecodedRun>,
    pub payload: Seq<u8>,
    pub io: JournalIo,
    pub outcomes: Seq<Result<(), WalError>>,
}

impl Ingestion {
    pub open spec fn run(self, f: IngestView) -> (IngestView, Result<u64, IngestError>) {
        f.ingested(self.history, self.range, self.decoded, Ok(self.payload), self.io, self.outcomes)
    }

    /// It brings something new, and so is to be journaled.
    pub open spec fn is_news(self, f: IngestView) -> bool {
        f.prepared(self.history, self.range, self.decoded) matches Ok(Some(_))
    }
}

/// The follower after `ingestions[i..]`.
pub open spec fn after_all(f: IngestView, ingestions: Seq<Ingestion>, i: int) -> IngestView
    decreases ingestions.len() - i,
{
    if i < 0 || i >= ingestions.len() {
        f
    } else {
        after_all(ingestions[i].run(f).0, ingestions, i + 1)
    }
}

/// All of `ingestions[i..]` went through in turn.
pub open spec fn all_taken(f: IngestView, ingestions: Seq<Ingestion>, i: int) -> bool
    decreases ingestions.len() - i,
{
    if i < 0 || i >= ingestions.len() {
        true
    } else {
        ingestions[i].run(f).1 is Ok && all_taken(ingestions[i].run(f).0, ingestions, i + 1)
    }
}

/// Those of `ingestions[i..]` that are journaled.
pub open spec fn journaled(f: IngestView, ingestions: Seq<Ingestion>, i: int) -> Seq<Ingestion>
    decreases ingestions.len() - i,
{
    if i < 0 || i >= ingestions.len() {
        Seq::empty()
    } else {
        let one = ingestions[i];
        let later = journaled(one.run(f).0, ingestions, i + 1);
        if one.is_news(f) {
            seq![one] + later
        } else {
            later
        }
    }
}

/// All of `ingestions[i..]` went through and were journaled in turn.
pub open spec fn all_journaled(f: IngestView, ingestions: Seq<Ingestion>, i: int) -> bool
    decreases ingestions.len() - i,
{
    if i < 0 || i >= ingestions.len() {
        true
    } else {
        let one = ingestions[i];
        one.is_news(f) && one.run(f).1 is Ok && all_journaled(one.run(f).0, ingestions, i + 1)
    }
}

/// The frames of `ingestions[i..]`, end to end.
pub open spec fn journal_tail(ingestions: Seq<Ingestion>, i: int) -> Seq<u8>
    decreases ingestions.len() - i,
{
    if i < 0 || i >= ingestions.len() {
        Seq::empty()
    } else {
        ingest::journal_frame(ingestions[i].payload) + journal_tail(ingestions, i + 1)
    }
}

/// The journal file of a follower that was `f` when it was empty, after
/// `ingestions`.
pub open spec fn journal_of(f: IngestView, ingestions: Seq<Ingestion>) -> Seq<u8> {
    ingest::journal_header(f.history) + journal_tail(journaled(f, ingestions, 0), 0)
}

/// `work[i]` decodes and applies each entry as the ingestion did.
pub open spec fn same_work(ingestions: Seq<Ingestion>, work: Seq<EntryWork>) -> bool {
    &&& work.len() == ingestions.len()
    &&& forall|i: int|
        #![trigger work[i]]
        0 <= i < work.len() ==> {
            &&& work[i].entry matches Ok(entry) && entry.history@ == ingestions[i].history
                && entry.range == ingestions[i].range
            &&& work[i].decoded@ == ingestions[i].decoded
            &&& work[i].outcomes@ == ingestions[i].outcomes
        }
}

/// A replayed entry leaves the follower as ingesting it did.
pub proof fn law_replay_equals_ingestion(f: IngestView, one: Ingestion)
    requires
        one.run(f).1 is Ok,
    ensures
        f.replayed(one.history, one.range, one.decoded, one.outcomes) == one.run(f),
{
}

/// One more in front moves the rest by one.
proof fn lemma_shift(f: IngestView, one: Ingestion, later: Seq<Ingestion>, i: int)
    requires
        0 <= i <= later.len(),
    ensures
        all_journaled(f, seq![one] + later, i + 1) == all_journaled(f, later, i),
        after_all(f, seq![one] + later, i + 1) == after_all(f, later, i),
    decreases later.len() - i,
{
    if i < later.len() {
        assert((seq![one] + later)[i + 1] == later[i]);
        lemma_shift(later[i].run(f).0, one, later, i + 1);
    }
}

/// What is not journaled leaves the follower as it is.
pub proof fn lemma_journaled(f: IngestView, ingestions: Seq<Ingestion>, i: int)
    requires
        0 <= i <= ingestions.len(),
        all_taken(f, ingestions, i),
    ensures
        all_journaled(f, journaled(f, ingestions, i), 0),
        after_all(f, journaled(f, ingestions, i), 0) == after_all(f, ingestions, i),
    decreases ingestions.len() - i,
{
    if i < ingestions.len() {
        let one = ingestions[i];
        let next = one.run(f).0;
        let later = journaled(next, ingestions, i + 1);
        lemma_journaled(next, ingestions, i + 1);
        if one.is_news(f) {
            assert((seq![one] + later)[0] == one);
            lemma_shift(next, one, later, 0);
        } else {
            assert(next == f);
        }
    }
}

/// Replay takes the entries of `ingestions[i..]` one by one and goes on with
/// what follows them.
proof fn lemma_journal_runs_on(
    f: IngestView,
    ingestions: Seq<Ingestion>,
    work: Seq<EntryWork>,
    lead: Seq<u8>,
    rest: Seq<u8>,
    i: int,
)
    requires
        0 <= i <= ingestions.len() <= work.len(),
        same_work(ingestions, work.take(ingestions.len() as int)),
        all_journaled(f, ingestions, i),
    ensures
        ingest::journal_run(
            f,
            lead + journal_tail(ingestions, i) + rest,
            lead.len() as int,
            work,
            i,
        ) == ingest::journal_run(
            after_all(f, ingestions, i),
            lead + journal_tail(ingestions, i) + rest,
            (lead + journal_tail(ingestions, i)).len() as int,
            work,
            ingestions.len() as int,
        ),
    decreases ingestions.len() - i,
{
    let bytes = lead + journal_tail(ingestions, i) + rest;
    if i == ingestions.len() {
        assert(lead + journal_tail(ingestions, i) =~= lead);
    } else {
        let one = ingestions[i];
        let first = ingest::journal_frame(one.payload);
        let later = journal_tail(ingestions, i + 1);
        assert(one.payload.len() <= frame::MAX_FRAME_SIZE);
        ingest::law_journal_entry_reads_back(lead, one.payload, later + rest);
        assert(lead + first + (later + rest) =~= bytes);
        crate::frame_laws::law_header_reads_back(
            one.payload,
            ingest::length_guard(one.payload.len() as u32),
        );
        assert((lead + first).len() == lead.len() + 16 + one.payload.len());
        law_replay_equals_ingestion(f, one);
        assert(work.take(ingestions.len() as int)[i] == work[i]);
        assert(work[i].decoded@ == one.decoded);
        lemma_journal_runs_on(one.run(f).0, ingestions, work, lead + first, rest, i + 1);
        assert((lead + first) + later + rest =~= bytes);
        assert((lead + first) + later =~= lead + journal_tail(ingestions, i));
    }
}

/// Restart reconstructs the follower: replaying the journal that live
/// ingestion wrote gives back its applied prefix, view and world tick, and
/// keeps the whole journal. Ranges that brought nothing new are not in it.
pub proof fn law_restart_reconstructs_follower(
    f: IngestView,
    ingestions: Seq<Ingestion>,
    work: Seq<EntryWork>,
)
    requires
        f.history.len() == 16,
        all_taken(f, ingestions, 0),
        same_work(journaled(f, ingestions, 0), work),
    ensures
        ({
            let bytes = journal_of(f, ingestions);
            &&& ingest::header_check(bytes, f.history) is Ok
            &&& ingest::journal_run(f, bytes, 24, work, 0) == Ok::<
                (IngestView, int),
                IngestError,
            >((after_all(f, ingestions, 0), bytes.len() as int))
        }),
{
    let header = ingest::journal_header(f.history);
    let entries = journaled(f, ingestions, 0);
    let bytes = journal_of(f, ingestions);
    ingest::law_journal_header_reads_back(f.history, journal_tail(entries, 0));
    vstd::bytes::lemma_auto_spec_u32_to_from_le_bytes();
    assert(header.len() == 24);
    lemma_journaled(f, ingestions, 0);
    assert(work.take(entries.len() as int) =~= work);
    assert(bytes + Seq::empty() =~= bytes);
    lemma_journal_runs_on(f, entries, work, header, Seq::empty(), 0);
}

/// The plans that `ingestions[i..]` carry out, each with the frames that its
/// records stand in.
pub open spec fn carried_out(f: IngestView, ingestions: Seq<Ingestion>, i: int) -> Seq<
    (Seq<DecodedRun>, PlanView),
>
    decreases ingestions.len() - i,
{
    if i < 0 || i >= ingestions.len() {
        Seq::empty()
    } else {
        let one = ingestions[i];
        let later = carried_out(one.run(f).0, ingestions, i + 1);
        match f.prepared(one.history, one.range, one.decoded) {
            Ok(Some(plan)) => seq![(one.decoded, plan)] + later,
            _ => later,
        }
    }
}

/// The plans that replaying a journal from `pos` on carries out.
pub open spec fn carried_out_again(
    f: IngestView,
    bytes: Seq<u8>,
    pos: int,
    work: Seq<EntryWork>,
    n: int,
) -> Seq<(Seq<DecodedRun>, PlanView)>
    decreases bytes.len() - pos,
{
    match ingest::journal_at(bytes, pos) {
        JournalAt::Entry(entry_frame) => match work[n].entry {
            Err(_) => Seq::empty(),
            Ok(entry) => {
                let decoded = work[n].decoded@;
                let next = f.replayed(entry.history@, entry.range, decoded, work[n].outcomes@).0;
                let end = pos + 16 + entry_frame.payload.len();
                let later = carried_out_again(next, bytes, end, work, n + 1);
                match f.prepared(entry.history@, entry.range, decoded) {
                    Err(_) => Seq::empty(),
                    Ok(Some(plan)) => seq![(decoded, plan)] + later,
                    Ok(None) => later,
                }
            },
        },
        _ => Seq::empty(),
    }
}

proof fn lemma_carried_out_shift(f: IngestView, one: Ingestion, later: Seq<Ingestion>, i: int)
    requires
        0 <= i <= later.len(),
    ensures
        carried_out(f, seq![one] + later, i + 1) == carried_out(f, later, i),
    decreases later.len() - i,
{
    if i < later.len() {
        assert((seq![one] + later)[i + 1] == later[i]);
        lemma_carried_out_shift(later[i].run(f).0, one, later, i + 1);
    }
}

proof fn lemma_carried_out_journaled(f: IngestView, ingestions: Seq<Ingestion>, i: int)
    requires
        0 <= i <= ingestions.len(),
        all_taken(f, ingestions, i),
    ensures
        carried_out(f, journaled(f, ingestions, i), 0) == carried_out(f, ingestions, i),
    decreases ingestions.len() - i,
{
    if i < ingestions.len() {
        let one = ingestions[i];
        let next = one.run(f).0;
        let later = journaled(next, ingestions, i + 1);
        lemma_carried_out_journaled(next, ingestions, i + 1);
        if one.is_news(f) {
            assert((seq![one] + later)[0] == one);
            lemma_carried_out_shift(next, one, later, 0);
        } else {
            assert(next == f);
        }
    }
}

proof fn lemma_carried_out_again(
    f: IngestView,
    entries: Seq<Ingestion>,
    work: Seq<EntryWork>,
    lead: Seq<u8>,
    i: int,
)
    requires
        0 <= i <= entries.len(),
        same_work(entries, work),
        all_journaled(f, entries, i),
    ensures
        carried_out_again(f, lead + journal_tail(entries, i), lead.len() as int, work, i)
            == carried_out(f, entries, i),
    decreases entries.len() - i,
{
    let bytes = lead + journal_tail(entries, i);
    if i == entries.len() {
        assert(bytes =~= lead);
    } else {
        let one = entries[i];
        let first = ingest::journal_frame(one.payload);
        let later = journal_tail(entries, i + 1);
        assert(one.payload.len() <= frame::MAX_FRAME_SIZE);
        ingest::law_journal_entry_reads_back(lead, one.payload, later);
        assert(lead + first + later =~= bytes);
        crate::frame_laws::law_header_reads_back(
            one.payload,
            ingest::length_guard(one.payload.len() as u32),
        );
        assert((lead + first).len() == lead.len() + 16 + one.payload.len());
        law_replay_equals_ingestion(f, one);
        assert(work[i].decoded@ == one.decoded);
        lemma_carried_out_again(one.run(f).0, entries, work, lead + first, i + 1);
    }
}

/// Restart applies again what live ingestion applied: the same plans over the
/// same frames, in the same order.
pub proof fn law_restart_applies_the_same_plans(
    f: IngestView,
    ingestions: Seq<Ingestion>,
    work: Seq<EntryWork>,
)
    requires
        f.history.len() == 16,
        all_taken(f, ingestions, 0),
        same_work(journaled(f, ingestions, 0), work),
    ensures
        carried_out_again(f, journal_of(f, ingestions), 24, work, 0) == carried_out(
            f,
            ingestions,
            0,
        ),
{
    let header = ingest::journal_header(f.history);
    vstd::bytes::lemma_auto_spec_u32_to_from_le_bytes();
    assert(header.len() == 24);
    lemma_journaled(f, ingestions, 0);
    lemma_carried_out_journaled(f, ingestions, 0);
    lemma_carried_out_again(f, journaled(f, ingestions, 0), work, header, 0);
}

/// A crash in the middle of journaling loses only that entry: the entries
/// before it are replayed, and the journal is cut back to them.
pub proof fn law_torn_entry_is_lost_alone(
    f: IngestView,
    ingestions: Seq<Ingestion>,
    work: Seq<EntryWork>,
    payload: Seq<u8>,
    kept: int,
)
    requires
        f.history.len() == 16,
        all_taken(f, ingestions, 0),
        same_work(journaled(f, ingestions, 0), work),
        payload.len() <= frame::MAX_FRAME_SIZE,
        0 < kept < ingest::journal_frame(payload).len(),
    ensures
        ({
            let whole = journal_of(f, ingestions);
            ingest::journal_run(
                f,
                whole + ingest::journal_frame(payload).take(kept),
                24,
                work,
                0,
            ) == Ok::<(IngestView, int), IngestError>(
                (after_all(f, ingestions, 0), whole.len() as int),
            )
        }),
{
    let header = ingest::journal_header(f.history);
    let entries = journaled(f, ingestions, 0);
    vstd::bytes::lemma_auto_spec_u32_to_from_le_bytes();
    assert(header.len() == 24);
    lemma_journaled(f, ingestions, 0);
    assert(work.take(entries.len() as int) =~= work);
    lemma_journal_runs_on(
        f,
        entries,
        work,
        header,
        ingest::journal_frame(payload).take(kept),
        0,
    );
    ingest::law_torn_journal_write_is_dropped(journal_of(f, ingestions), payload, kept);
}

/// A range that was journaled and then failed to apply is no less part of the
/// journal: a restart that meets the same failure gives no follower.
pub proof fn law_failed_entry_refuses_restart(
    f: IngestView,
    ingestions: Seq<Ingestion>,
    last: Ingestion,
    work: Seq<EntryWork>,
)
    requires
        f.history.len() == 16,
        all_taken(f, ingestions, 0),
        ({
            let before = after_all(f, ingestions, 0);
            &&& last.is_news(before)
            &&& IngestView::journal_error(Ok(last.payload), last.io) is None
            &&& last.run(before).1 is Err
        }),
        same_work(journaled(f, ingestions, 0).push(last), work),
    ensures
        ({
            let bytes = journal_of(f, ingestions) + ingest::journal_frame(last.payload);
            ingest::journal_run(f, bytes, 24, work, 0) == Err::<(IngestView, int), IngestError>(
                last.run(after_all(f, ingestions, 0)).1->Err_0,
            )
        }),
{
    let header = ingest::journal_header(f.history);
    let entries = journaled(f, ingestions, 0);
    let n = entries.len() as int;
    let rest = ingest::journal_frame(last.payload);
    vstd::bytes::lemma_auto_spec_u32_to_from_le_bytes();
    assert(header.len() == 24);
    lemma_journaled(f, ingestions, 0);
    assert(same_work(entries, work.take(n))) by {
        assert forall|i: int|
            #![trigger work.take(n)[i]]
            0 <= i < n implies (work.take(n)[i].entry matches Ok(entry) && entry.history@
            == entries[i].history && entry.range == entries[i].range) && work.take(n)[i].decoded@
            == entries[i].decoded && work.take(n)[i].outcomes@ == entries[i].outcomes by {
            assert(work.take(n)[i] == work[i]);
            assert(entries.push(last)[i] == entries[i]);
        }
    }
    lemma_journal_runs_on(f, entries, work, header, rest, 0);
    ingest::law_journal_entry_reads_back(journal_of(f, ingestions), last.payload, Seq::empty());
    let bytes = journal_of(f, ingestions) + rest;
    assert(bytes + Seq::empty() =~= bytes);
    assert(entries.push(last)[n] == last);
    assert(work[n].decoded@ == last.decoded);
}

/// Ingestion either succeeds or poisons; a poisoned follower takes nothing
/// more.
pub proof fn law_ingestion_error_poisons(f: IngestView, one: Ingestion, later: Ingestion)
    requires
        one.run(f).1 is Err,
    ensures
        one.run(f).0.follower.poisoned,
        later.run(one.run(f).0).1 == Err::<u64, IngestError>(
            IngestError::Follower(FollowerError::Poisoned),
        ),
{
}

/// A successful ingestion brings the follower to the end of the range, or
/// leaves it where it is when it was already past it, and never takes its view
/// back.
pub proof fn law_ingestion_reaches_range_end(f: IngestView, one: Ingestion)
    requires
        one.run(f).1 is Ok,
        f.prepared(one.history, one.range, one.decoded) matches Ok(Some(plan))
            ==> replication::outcomes_cover(one.outcomes, plan.records.len() as int),
    ensures
        ({
            let after = one.run(f).0;
            &&& after.follower.applied == if one.range.next_seq > f.follower.applied {
                one.range.next_seq
            } else {
                f.follower.applied
            }
            &&& !after.follower.poisoned
            &&& after.view >= f.view
        }),
{
    if let Ok(Some(plan)) = f.prepared(one.history, one.range, one.decoded) {
        plan_laws::law_plan_covers_missing_slots(
            one.range,
            one.decoded,
            f.view,
            f.follower.applied,
            f.limits,
            f.world,
            f.codecs,
        );
        lemma_followed_ok(plan, f.follower, one.outcomes, 0);
        let end = (f.follower.applied + plan.records.len()) as u64;
        plan_laws::law_followed_plan_advances(plan, f.follower, one.outcomes, end, 0);
    }
}

proof fn lemma_followed_ok(
    plan: PlanView,
    follower: FollowerView,
    outcomes: Seq<Result<(), WalError>>,
    i: int,
)
    requires
        plan.followed(follower, outcomes, i).1 is Ok,
        0 <= i,
        i <= outcomes.len(),
        forall|k: int| 0 <= k < i ==> #[trigger] outcomes[k] is Ok,
        replication::outcomes_cover(outcomes, plan.records.len() as int),
    ensures
        plan.records.len() <= outcomes.len() || i > plan.records.len(),
        forall|k: int| i <= k < plan.records.len() ==> #[trigger] outcomes[k] is Ok,
    decreases plan.records.len() - i,
{
    if i < plan.records.len() {
        let (next, r) = follower.next(plan.records[i].seq, outcomes[i]);
        assert(outcomes[i] is Ok);
        if i == outcomes.len() {
            assert(outcomes[i - 1] is Ok);
        }
        lemma_followed_ok(plan, next, outcomes, i + 1);
    }
}

/// A range is taken exactly by a healthy follower of the same history that has
/// applied everything before it, where the preflight lets it through. It
/// brings nothing new exactly where it ends within the applied prefix and
/// raises no view.
pub proof fn law_range_is_prepared_for_its_follower(
    f: IngestView,
    history: Seq<u8>,
    range: WalFrameRange,
    decoded: Seq<DecodedRun>,
)
    ensures
        ({
            let planned = plan::range_plan(
                range,
                decoded,
                f.view,
                f.follower.applied,
                f.limits,
                f.world,
                f.codecs,
            );
            let r = f.prepared(history, range, decoded);
            &&& r is Ok <==> !f.follower.poisoned && history == f.history && range.from_seq
                <= f.follower.applied && planned is Ok
            &&& r matches Ok(Some(plan)) ==> planned == Ok::<PlanView, WalError>(plan) && (
            range.next_seq > f.follower.applied || plan.max_view != f.view)
            &&& r matches Ok(None) ==> range.next_seq <= f.follower.applied
                && planned->Ok_0.max_view == f.view
            &&& f.follower.poisoned ==> r == Err::<Option<PlanView>, IngestError>(
                IngestError::Follower(FollowerError::Poisoned),
            )
            &&& !f.follower.poisoned && history != f.history ==> r == Err::<
                Option<PlanView>,
                IngestError,
            >(IngestError::HistoryMismatch)
            &&& !f.follower.poisoned && history == f.history && range.from_seq > f.follower.applied
                ==> r == Err::<Option<PlanView>, IngestError>(
                IngestError::Follower(
                    FollowerError::Gap { expected: f.follower.applied, got: range.from_seq },
                ),
            )
        }),
{
}

/// Nothing is applied that is not journaled: where the entry does not encode,
/// does not fit a frame, or is not written and synchronized, the follower keeps
/// its prefix, view and world and is poisoned.
pub proof fn law_nothing_is_applied_before_it_is_journaled(
    f: IngestView,
    history: Seq<u8>,
    range: WalFrameRange,
    decoded: Seq<DecodedRun>,
    payload: Result<Seq<u8>, WalError>,
    io: JournalIo,
    outcomes: Seq<Result<(), WalError>>,
)
    requires
        f.prepared(history, range, decoded) matches Ok(Some(_)),
        payload is Err || payload->Ok_0.len() > frame::MAX_FRAME_SIZE || io.write is Err
            || io.sync is Err,
    ensures
        ({
            let (after, r) = f.ingested(history, range, decoded, payload, io, outcomes);
            &&& r is Err
            &&& after.follower.applied == f.follower.applied
            &&& after.follower.poisoned
            &&& after.view == f.view
            &&& after.world == f.world
            &&& payload matches Err(e) ==> r == Err::<u64, IngestError>(IngestError::Wal(e))
        }),
{
}

/// An ingested range leaves the world one tick after its last record, and the
/// follower's identity, limits, codecs and columns as they were.
pub proof fn law_ingestion_moves_the_world(f: IngestView, one: Ingestion)
    requires
        one.run(f).1 is Ok,
        f.prepared(one.history, one.range, one.decoded) is Ok,
    ensures
        ({
            let after = one.run(f).0;
            &&& after.history == f.history && after.limits == f.limits
            &&& after.codecs == f.codecs && after.world.columns == f.world.columns
            &&& match f.prepared(one.history, one.range, one.decoded)->Ok_0 {
                Some(plan) => {
                    &&& after.view == plan.max_view
                    &&& plan.records.len() > 0 ==> after.world.tick
                        == plan.records.last().tick_after + 1
                    &&& plan.records.len() == 0 ==> after.world.tick == f.world.tick
                },
                None => after == f,
            }
        }),
{
    if let Ok(Some(plan)) = f.prepared(one.history, one.range, one.decoded) {
        plan_laws::law_plan_covers_missing_slots(
            one.range,
            one.decoded,
            f.view,
            f.follower.applied,
            f.limits,
            f.world,
            f.codecs,
        );
        if plan.records.len() > 0 {
            assert(plan.records[plan.records.len() - 1].tick_after < u64::MAX);
        }
        lemma_followed_view(plan, f.follower, one.outcomes, 0);
    }
}

proof fn lemma_followed_view(
    plan: PlanView,
    follower: FollowerView,
    outcomes: Seq<Result<(), WalError>>,
    i: int,
)
    ensures
        plan.followed(follower, outcomes, i).1 matches Ok(view) ==> view == plan.max_view,
    decreases plan.records.len() - i,
{
    if 0 <= i < plan.records.len() {
        let (next, _) = follower.next(plan.records[i].seq, outcomes[i]);
        lemma_followed_view(plan, next, outcomes, i + 1);
    }
}

/// A journal header says what it is for: its magic, the history, and their
/// checksum.
pub proof fn law_journal_header_layout(history: Seq<u8>)
    requires
        history.len() == 16,
    ensures
        ({
            let header = ingest::journal_header(history);
            &&& header.len() == 24
            &&& header[0] == 0x4d && header[1] == 0x4b && header[2] == 0x49 && header[3] == 0x31
            &&& header.subrange(4, 20) == history
            &&& header.subrange(20, 24) == vstd::bytes::spec_u32_to_le_bytes(
                crc::crc32(header.take(20)),
            )
        }),
{
    vstd::bytes::lemma_auto_spec_u32_to_from_le_bytes();
    let header = ingest::journal_header(history);
    assert(header.take(20) =~= ingest::journal_lead(history));
    assert(header.subrange(4, 20) =~= history);
    assert(header.subrange(20, 24) =~= vstd::bytes::spec_u32_to_le_bytes(
        crc::crc32(ingest::journal_lead(history)),
    ));
}

/// A journal header with any one byte altered is refused for its history.
pub proof fn law_altered_journal_header_is_refused(
    history: Seq<u8>,
    rest: Seq<u8>,
    i: int,
    byte: u8,
)
    requires
        history.len() == 16,
        0 <= i < 24,
        byte != ingest::journal_header(history)[i],
    ensures
        ingest::header_check(ingest::journal_header(history).update(i, byte) + rest, history) is Err,
{
    vstd::bytes::lemma_auto_spec_u32_to_from_le_bytes();
    law_journal_header_layout(history);
    let header = ingest::journal_header(history);
    let lead = header.take(20);
    let bytes = header.update(i, byte) + rest;
    let stored = bytes.subrange(20, 24);
    if i < 20 {
        assert(bytes.take(20) =~= lead.update(i, byte));
        crc::law_changed_byte_changes_checksum(lead, i, byte);
        assert(stored =~= header.subrange(20, 24));
    } else {
        assert(bytes.take(20) =~= lead);
        assert(stored[i - 20] != header.subrange(20, 24)[i - 20]);
        if vstd::bytes::spec_u32_from_le_bytes(stored) == crc::crc32(lead) {
            assert(vstd::bytes::spec_u32_to_le_bytes(crc::crc32(lead)) == stored);
        }
    }
}

/// A complete journal entry with any one byte altered refuses the journal: it
/// is neither replayed nor taken for a torn write.
pub proof fn law_altered_journal_entry_is_refused(
    lead: Seq<u8>,
    payload: Seq<u8>,
    rest: Seq<u8>,
    i: int,
    byte: u8,
)
    requires
        payload.len() <= frame::MAX_FRAME_SIZE,
        0 <= i < ingest::journal_frame(payload).len(),
        byte != ingest::journal_frame(payload)[i],
    ensures
        ingest::journal_at(
            lead + ingest::journal_frame(payload).update(i, byte) + rest,
            lead.len() as int,
        ) is Corrupt,
{
    vstd::bytes::lemma_auto_spec_u32_to_from_le_bytes();
    vstd::bytes::lemma_auto_spec_u64_to_from_le_bytes();
    let guard = ingest::length_guard(payload.len() as u32);
    crate::frame_laws::law_header_reads_back(payload, guard);
    let whole = ingest::journal_frame(payload);
    let header = frame::frame_header(payload, guard);
    let bytes = lead + whole.update(i, byte) + rest;
    let pos = lead.len() as int;
    let read = bytes.subrange(pos, pos + 16);
    if i < 16 {
        assert(read =~= header.update(i, byte));
        assert(bytes.subrange(pos + 16, pos + 16 + payload.len()) =~= payload);
        if i < 4 {
            assert(read.subrange(8, 16) =~= header.subrange(8, 16));
            assert(read.subrange(0, 4)[i] != header.subrange(0, 4)[i]);
            if frame::header_len(read) == payload.len() as u32 {
                assert(vstd::bytes::spec_u32_to_le_bytes(payload.len() as u32) == read.subrange(
                    0,
                    4,
                ));
                assert(vstd::bytes::spec_u32_to_le_bytes(payload.len() as u32)
                    =~= header.subrange(0, 4));
            }
        } else if i < 8 {
            assert(read.subrange(8, 16) =~= header.subrange(8, 16));
            assert(read.subrange(0, 4) =~= header.subrange(0, 4));
            assert(read.subrange(4, 8)[i - 4] != header.subrange(4, 8)[i - 4]);
            if frame::header_crc(read) == crc::crc32(payload) {
                assert(vstd::bytes::spec_u32_to_le_bytes(crc::crc32(payload)) == read.subrange(
                    4,
                    8,
                ));
                assert(vstd::bytes::spec_u32_to_le_bytes(crc::crc32(payload)) =~= header.subrange(
                    4,
                    8,
                ));
            }
        } else {
            assert(read.subrange(0, 4) =~= header.subrange(0, 4));
            assert(read.subrange(8, 16)[i - 8] != header.subrange(8, 16)[i - 8]);
            if frame::header_view(read) == guard {
                assert(vstd::bytes::spec_u64_to_le_bytes(guard) == read.subrange(8, 16));
                assert(vstd::bytes::spec_u64_to_le_bytes(guard) =~= header.subrange(8, 16));
            }
        }
    } else {
        assert(read =~= header);
        assert(bytes.subrange(pos + 16, pos + 16 + payload.len()) =~= payload.update(
            i - 16,
            byte,
        ));
        crc::law_changed_byte_changes_checksum(payload, i - 16, byte);
    }
}

/// A new follower has applied nothing and is healthy, in view 0, over the world
/// and under the history, codecs and limits that it was made with.
pub proof fn law_new_follower_is_empty(
    history: Seq<u8>,
    codecs: Codecs,
    world: WorldShape,
    limits: WalRangeLimits,
)
    ensures
        ({
            let f = ingest::empty_follower(history, codecs, world, limits);
            &&& f.follower.applied == 0 && !f.follower.poisoned && f.view == 0
            &&& f.history == history && f.codecs == codecs && f.world == world && f.limits
                == limits
        }),
{
}

/// A journal is opened only under limits that are all positive, and only where
/// its header is whole, sound and of the same history.
pub proof fn law_journal_opens_for_its_history(
    bytes: Seq<u8>,
    history: Seq<u8>,
    limits: WalRangeLimits,
)
    ensures
        ({
            let r = ingest::open_check(bytes, history, limits);
            let zero = limits.max_records == 0 || limits.max_bytes == 0
                || limits.max_control_frames == 0;
            &&& zero ==> r == Err::<(), IngestError>(
                IngestError::Wal(WalError::InvalidRangeLimits),
            )
            &&& !zero && bytes.len() < 24 ==> r == Err::<(), IngestError>(
                IngestError::Wal(WalError::Io(IoError::UnexpectedEof)),
            )
            &&& r is Ok ==> !zero && bytes.len() >= 24 && bytes.subrange(4, 20) == history
                && crc::crc32(bytes.take(20)) == vstd::bytes::spec_u32_from_le_bytes(
                bytes.subrange(20, 24),
            ) && bytes[0] == 0x4d && bytes[1] == 0x4b && bytes[2] == 0x49 && bytes[3] == 0x31
        }),
{
    let r = ingest::open_check(bytes, history, limits);
    if r is Ok {
        let magic = ingest::journal_lead(Seq::empty());
        assert(bytes.take(4) == magic);
        assert(bytes.take(4)[0] == bytes[0] && bytes.take(4)[1] == bytes[1] && bytes.take(4)[2]
            == bytes[2] && bytes.take(4)[3] == bytes[3]);
        assert(magic[0] == 0x4d && magic[1] == 0x4b && magic[2] == 0x49 && magic[3] == 0x31);
    }
}

/// A journal is replayed entry by entry. One that is corrupt, does not decode
/// or is refused by the follower refuses the journal; one that was cut short
/// ends it there.
pub proof fn law_journal_is_replayed_entry_by_entry(
    f: IngestView,
    bytes: Seq<u8>,
    pos: int,
    work: Seq<EntryWork>,
    n: int,
)
    ensures
        ({
            let r = ingest::journal_run(f, bytes, pos, work, n);
            match ingest::journal_at(bytes, pos) {
                JournalAt::End => r == Ok::<(IngestView, int), IngestError>((f, pos)),
                JournalAt::Torn => r == Ok::<(IngestView, int), IngestError>((f, pos)),
                JournalAt::Corrupt(e) => r == Err::<(IngestView, int), IngestError>(
                    IngestError::Wal(e),
                ),
                JournalAt::Entry(_) => {
                    &&& work[n].entry is Err ==> (r matches Err(
                        IngestError::Wal(WalError::Format(FormatIssue::InvalidJournalEntry {
                            detail,
                        })),
                    ) && work[n].entry == Err::<JournalEntry, String>(detail))
                    &&& work[n].entry matches Ok(entry) ==> (f.prepared(
                        entry.history@,
                        entry.range,
                        work[n].decoded@,
                    ) matches Err(e) ==> r == Err::<(IngestView, int), IngestError>(e))
                },
            }
        }),
{
}

/// A journal frame holds the entry as it is; where a log's frame has its view, it
/// has the complement of the length.
pub proof fn law_journal_frame_layout(payload: Seq<u8>)
    requires
        payload.len() <= frame::MAX_FRAME_SIZE,
    ensures
        ({
            let bytes = ingest::journal_frame(payload);
            &&& frame::header_len(bytes.take(16)) == payload.len()
            &&& frame::header_crc(bytes.take(16)) == crc::crc32(payload)
            &&& frame::header_view(bytes.take(16)) == u64::MAX - payload.len()
            &&& bytes.skip(16) == payload
        }),
{
    let guard = ingest::length_guard(payload.len() as u32);
    crate::frame_laws::law_header_reads_back(payload, guard);
    crate::frame_laws::law_frame_layout(payload, guard);
    assert(ingest::journal_frame(payload).take(16) =~= frame::frame_header(payload, guard));
}

} // verus!
