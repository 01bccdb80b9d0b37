//! Laws on what a preflight lets through.
use crate::apply::{Codecs, WorldShape};
use crate::error::WalError;
use crate::plan;
use crate::plan::{DecodedRun, PlanRequest, PlanState, PlanView, PlannedRecord};
use crate::range::{WalFrameRange, WalRangeLimits, WalSegmentRun};
use crate::replication;
use crate::replication::FollowerView;
use vstd::prelude::*;

verus! {

/// The planned records are the slots from `apply_from` up to `end`, in order.
pub open spec fn slots_from(records: Seq<PlannedRecord>, apply_from: int, end: int) -> bool {
    &&& records.len() == if end > apply_from {
        end - apply_from
    } else {
        0
    }
    &&& forall|i: int| 0 <= i < records.len() ==> (#[trigger] records[i]).seq == apply_from + i
}

/// Commit ticks never fall below the tick that the record before left behind,
/// and start no lower than `tick`.
pub open spec fn ticks_from(records: Seq<PlannedRecord>, tick: u64) -> bool {
    &&& forall|i: int|
        0 < i < records.len() ==> records[i - 1].tick_after < (#[trigger] records[i]).tick_after
    &&& records.len() > 0 ==> tick <= records[0].tick_after
    &&& forall|i: int| 0 <= i < records.len() ==> (#[trigger] records[i]).tick_after < u64::MAX
}

spec fn plan_inv(req: PlanRequest, st: PlanState) -> bool {
    &&& req.from_seq <= st.expected_seq <= req.next_seq
    &&& slots_from(st.records, req.apply_from as int, st.expected_seq as int)
    &&& ticks_from(st.records, req.world.tick)
    &&& st.expected_tick == if st.records.len() > 0 {
        st.records.last().tick_after + 1
    } else {
        req.world.tick as int
    }
}

proof fn lemma_plan_frame(
    req: PlanRequest,
    st: PlanState,
    f: crate::frame::DecodedFrame,
    source: usize,
    k: usize,
)
    requires
        plan_inv(req, st),
        req.from_seq <= req.apply_from,
        plan::plan_frame(req, st, f, source, k) is Ok,
    ensures
        plan_inv(req, plan::plan_frame(req, st, f, source, k)->Ok_0),
{
}

proof fn lemma_plan_frames(req: PlanRequest, st: PlanState, run: DecodedRun, source: usize, k: int)
    requires
        plan_inv(req, st),
        req.from_seq <= req.apply_from,
        plan::plan_frames(req, st, run, source, k) is Ok,
    ensures
        plan_inv(req, plan::plan_frames(req, st, run, source, k)->Ok_0),
    decreases run.frames@.len() - k,
{
    if 0 <= k < run.frames@.len() {
        lemma_plan_frame(req, st, run.frames@[k], source, k as usize);
        let next = plan::plan_frame(req, st, run.frames@[k], source, k as usize)->Ok_0;
        lemma_plan_frames(req, next, run, source, k + 1);
    }
}

proof fn lemma_plan_runs(
    req: PlanRequest,
    st: PlanState,
    runs: Seq<WalSegmentRun>,
    decoded: Seq<DecodedRun>,
    i: int,
)
    requires
        plan_inv(req, st),
        req.from_seq <= req.apply_from,
        plan::plan_runs(req, st, runs, decoded, i) is Ok,
    ensures
        plan_inv(req, plan::plan_runs(req, st, runs, decoded, i)->Ok_0),
    decreases runs.len() - i,
{
    if 0 <= i < runs.len() {
        let bound = plan::plan_schema(req, st, runs[i], decoded[i])->Ok_0;
        assert(plan_inv(req, bound));
        lemma_plan_frames(req, bound, decoded[i], i as usize, 0);
        let next = plan::plan_frames(req, bound, decoded[i], i as usize, 0)->Ok_0;
        lemma_plan_runs(req, next, runs, decoded, i + 1);
    }
}

/// A valid range plans exactly the slots that the destination lacks, each once
/// and in order, at commit ticks that only grow.
pub proof fn law_plan_covers_missing_slots(
    range: WalFrameRange,
    decoded: Seq<DecodedRun>,
    restored_view: u64,
    apply_from: u64,
    limits: WalRangeLimits,
    world: WorldShape,
    codecs: Codecs,
)
    requires
        plan::range_plan(range, decoded, restored_view, apply_from, limits, world, codecs) is Ok,
    ensures
        ({
            let plan = plan::range_plan(
                range,
                decoded,
                restored_view,
                apply_from,
                limits,
                world,
                codecs,
            )->Ok_0;
            &&& slots_from(plan.records, apply_from as int, range.next_seq as int)
            &&& ticks_from(plan.records, world.tick)
            &&& plan.max_view >= restored_view
        }),
{
    let req = PlanRequest {
        from_seq: range.from_seq,
        next_seq: range.next_seq,
        restored_view,
        apply_from,
        world,
        codecs,
    };
    let st = plan::plan_start(range, limits, world.tick);
    assert(plan_inv(req, st));
    lemma_plan_runs(req, st, range.runs@, decoded, 0);
}

/// Carrying out a plan that starts at a healthy follower's prefix, with no
/// failure, brings the follower to the plan's end.
pub proof fn law_followed_plan_advances(
    plan: PlanView,
    follower: FollowerView,
    outcomes: Seq<Result<(), WalError>>,
    end: u64,
    i: int,
)
    requires
        !follower.poisoned,
        0 <= i <= plan.records.len(),
        forall|k: int|
            0 <= k < plan.records.len() ==> (#[trigger] plan.records[k]).seq == follower.applied + k
                - i,
        follower.applied + plan.records.len() - i == end,
        plan.records.len() <= outcomes.len(),
        forall|k: int| i <= k < plan.records.len() ==> #[trigger] outcomes[k] is Ok,
    ensures
        plan.followed(follower, outcomes, i) == (
            FollowerView { applied: end, poisoned: false },
            Ok::<u64, replication::FollowerError>(plan.max_view),
        ),
    decreases plan.records.len() - i,
{
    if i < plan.records.len() {
        assert(plan.records[i].seq == follower.applied);
        let (next, r) = follower.next(plan.records[i].seq, outcomes[i]);
        assert(outcomes[i] is Ok);
        law_followed_plan_advances(plan, next, outcomes, end, i + 1);
    }
}

/// Outcome `k` is the failure `e`, and those before it are successes.
pub open spec fn fails_first(outcomes: Seq<Result<(), WalError>>, k: int, e: WalError) -> bool {
    &&& 0 <= k < outcomes.len()
    &&& outcomes[k] == Err::<(), WalError>(e)
    &&& forall|j: int| 0 <= j < k ==> #[trigger] outcomes[j] is Ok
}

proof fn lemma_failed_outcome(outcomes: Seq<Result<(), WalError>>, i: int, n: int)
    requires
        0 <= i,
        forall|j: int| 0 <= j < i && j < outcomes.len() ==> #[trigger] outcomes[j] is Ok,
    ensures
        match plan::failed_outcome(outcomes, i, n) {
            Some(e) => exists|k: int| k < n && #[trigger] fails_first(outcomes, k, e),
            None => forall|j: int| 0 <= j < n && j < outcomes.len() ==> #[trigger] outcomes[j] is Ok,
        },
    decreases n - i,
{
    if i < n && i < outcomes.len() {
        match outcomes[i] {
            Err(e) => {
                assert(fails_first(outcomes, i, e));
            },
            Ok(_) => {
                lemma_failed_outcome(outcomes, i + 1, n);
            },
        }
    }
}

/// Carrying out a plan fails exactly where one of its records does, with the
/// first such failure.
pub proof fn law_first_failure_is_told(outcomes: Seq<Result<(), WalError>>, n: int)
    ensures
        match plan::failed_outcome(outcomes, 0, n) {
            Some(e) => exists|k: int| k < n && #[trigger] fails_first(outcomes, k, e),
            None => forall|j: int| 0 <= j < n && j < outcomes.len() ==> #[trigger] outcomes[j] is Ok,
        },
{
    lemma_failed_outcome(outcomes, 0, n);
}

/// A follower that carries out a plan from its prefix on stops at the first
/// record that fails: it has applied those before it and is poisoned.
pub proof fn law_followed_plan_stops_at_failure(
    plan: PlanView,
    follower: FollowerView,
    outcomes: Seq<Result<(), WalError>>,
    k: int,
    e: WalError,
    i: int,
)
    requires
        !follower.poisoned,
        0 <= i <= k < plan.records.len(),
        forall|j: int|
            0 <= j < plan.records.len() ==> (#[trigger] plan.records[j]).seq == follower.applied + j
                - i,
        fails_first(outcomes, k, e),
    ensures
        ({
            let (after, r) = plan.followed(follower, outcomes, i);
            &&& after.applied == follower.applied + k - i
            &&& after.poisoned
            &&& r == Err::<u64, replication::FollowerError>(replication::FollowerError::Apply(e))
        }),
    decreases k - i,
{
    assert(plan.records[i].seq == follower.applied);
    if i < k {
        assert(plan.records[k].seq == follower.applied + k - i);
        let (next, r) = follower.next(plan.records[i].seq, outcomes[i]);
        assert(outcomes[i] is Ok);
        law_followed_plan_stops_at_failure(plan, next, outcomes, k, e, i + 1);
    }
}

} // verus!
