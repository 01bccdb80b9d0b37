//! Laws on which ranges a preflight lets through, and on what it plans of them.
use crate::apply;
use crate::apply::{ApplyComponent, Codecs, WorldShape};
use crate::change_laws;
use crate::error::WalError;
use crate::frame;
use crate::frame::{DecodedFrame, RawFrame};
use crate::plan;
use crate::plan::{DecodedRun, PlanRequest, PlanState, PlanView, PlannedRecord};
use crate::range::{WalFrameRange, WalRangeLimits, WalSegmentRun};
use crate::record::{ComponentId, WalEntry, WalRecord};
use vstd::prelude::*;

verus! {

pub open spec fn holds_mutation(f: DecodedFrame) -> bool {
    f.spec_decode() matches Ok(WalEntry::Mutations(_))
}

pub open spec fn holds_checkpoint(f: DecodedFrame) -> bool {
    f.spec_decode() matches Ok(WalEntry::Checkpoint { .. })
}

/// The number of mutations among the first `k` frames.
pub open spec fn mutations_upto(frames: Seq<DecodedFrame>, k: int) -> nat
    decreases k,
{
    if k <= 0 {
        0
    } else if holds_mutation(frames[k - 1]) {
        mutations_upto(frames, k - 1) + 1
    } else {
        mutations_upto(frames, k - 1)
    }
}

/// The number of checkpoints among the first `k` frames.
pub open spec fn checkpoints_upto(frames: Seq<DecodedFrame>, k: int) -> nat
    decreases k,
{
    if k <= 0 {
        0
    } else if holds_checkpoint(frames[k - 1]) {
        checkpoints_upto(frames, k - 1) + 1
    } else {
        checkpoints_upto(frames, k - 1)
    }
}

/// The number of mutations in the first `i` runs.
pub open spec fn run_mutations(decoded: Seq<DecodedRun>, i: int) -> nat
    decreases i,
{
    if i <= 0 {
        0
    } else {
        run_mutations(decoded, i - 1) + mutations_upto(
            decoded[i - 1].frames@,
            decoded[i - 1].frames@.len() as int,
        )
    }
}

/// The number of checkpoints in the first `i` runs.
pub open spec fn run_checkpoints(decoded: Seq<DecodedRun>, i: int) -> nat
    decreases i,
{
    if i <= 0 {
        0
    } else {
        run_checkpoints(decoded, i - 1) + checkpoints_upto(
            decoded[i - 1].frames@,
            decoded[i - 1].frames@.len() as int,
        )
    }
}

/// A range with what a destination checks it against.
pub struct Preflight {
    pub range: WalFrameRange,
    pub decoded: Seq<DecodedRun>,
    pub restored_view: u64,
    pub apply_from: u64,
    pub limits: WalRangeLimits,
    pub world: WorldShape,
    pub codecs: Codecs,
}

impl Preflight {
    pub open spec fn plan(self) -> Result<PlanView, WalError> {
        plan::range_plan(
            self.range,
            self.decoded,
            self.restored_view,
            self.apply_from,
            self.limits,
            self.world,
            self.codecs,
        )
    }

    spec fn request(self) -> PlanRequest {
        PlanRequest {
            from_seq: self.range.from_seq,
            next_seq: self.range.next_seq,
            restored_view: self.restored_view,
            apply_from: self.apply_from,
            world: self.world,
            codecs: self.codecs,
        }
    }

    pub open spec fn frame(self, i: int, k: int) -> DecodedFrame {
        self.decoded[i].frames@[k]
    }

    pub open spec fn schema_view(self, i: int) -> u64 {
        self.decoded[i].schema->Ok_0.frame.spec_stamp()
    }

    pub open spec fn view_at(self, i: int, k: int) -> u64 {
        self.frame(i, k).frame.spec_stamp()
    }

    /// The record in frame `k` of run `i`.
    pub open spec fn record(self, i: int, k: int) -> WalRecord {
        self.frame(i, k).spec_decode()->Ok_0->Mutations_0
    }

    /// The number that a mutation in frame `k` of run `i` must have: all of
    /// them are numbered on from the start of the range.
    pub open spec fn number(self, i: int, k: int) -> int {
        self.range.from_seq + run_mutations(self.decoded, i) + mutations_upto(
            self.decoded[i].frames@,
            k,
        )
    }

    /// Frame `b` of run `a` is there, and stands before frame `k` of run `i`.
    pub open spec fn is_before(self, a: int, b: int, i: int, k: int) -> bool {
        &&& 0 <= a < self.decoded.len()
        &&& 0 <= b < self.decoded[a].frames@.len()
        &&& a < i || a == i && b < k
    }

    /// Neither the seed nor the first `n` schemas nor any frame before frame
    /// `k` of run `i` carries a view above `view`.
    pub open spec fn fenced(self, n: int, i: int, k: int, view: u64) -> bool {
        &&& self.range.seed_view <= view
        &&& forall|a: int| 0 <= a < n ==> #[trigger] self.schema_view(a) <= view
        &&& forall|a: int, b: int|
            self.is_before(a, b, i, k) ==> #[trigger] self.view_at(a, b) <= view
    }

    /// Frame `k` of run `i` holds a mutation that the destination lacks.
    pub open spec fn is_lacking(self, i: int, k: int) -> bool {
        holds_mutation(self.frame(i, k)) && self.number(i, k) >= self.apply_from
    }

    /// What the schema of run `i` binds to at the destination.
    pub open spec fn binding(self, i: int) -> Result<Map<ComponentId, ApplyComponent>, WalError> {
        let f = self.decoded[i].schema->Ok_0;
        apply::apply_remap(
            Some(
                (f.spec_decode()->Ok_0->Schema_0.components@.len() as usize, f.binding),
            ),
            self.world,
            self.codecs,
        )
    }

    /// Run `i` starts where the one before ended, opens with its own schema and
    /// nothing else, which the destination can bind, and consists of whole
    /// frames; its schema is within the control limit.
    pub open spec fn is_run(self, i: int) -> bool {
        let start = self.range.runs@[i].segment_start_seq;
        &&& if i == 0 {
            start <= self.range.from_seq
        } else {
            start > self.range.runs@[i - 1].segment_start_seq && start == self.range.from_seq
                + run_mutations(self.decoded, i)
        }
        &&& i + run_checkpoints(self.decoded, i) < self.limits.max_control_frames
        &&& self.decoded[i].schema matches Ok(f) && f.spec_decode() matches Ok(
            WalEntry::Schema(_),
        ) && f.frame.spec_end() == self.range.runs@[i].schema_frame@.len()
        &&& self.binding(i) is Ok
        &&& self.decoded[i].failure is None
    }

    /// The record in frame `k` of run `i` commits after those that the
    /// destination lacks before it, and no earlier than the world's tick.
    pub open spec fn is_in_time(self, i: int, k: int) -> bool {
        let tick = self.record(i, k).tick_after;
        &&& self.world.tick <= tick < u64::MAX
        &&& forall|a: int, b: int|
            self.is_before(a, b, i, k) && #[trigger] self.is_lacking(a, b) ==> self.record(
                a,
                b,
            ).tick_after < tick
    }

    /// Frame `k` of run `i` belongs there: a checkpoint within the control
    /// limit, or the mutation that is due, from a view no older than any before
    /// it, whose components are all bound.
    pub open spec fn is_frame(self, i: int, k: int) -> bool {
        match self.frame(i, k).spec_decode() {
            Err(_) => false,
            Ok(WalEntry::Schema(_)) => false,
            Ok(WalEntry::Checkpoint { .. }) => i + 1 + run_checkpoints(self.decoded, i)
                + checkpoints_upto(self.decoded[i].frames@, k) < self.limits.max_control_frames,
            Ok(WalEntry::Mutations(record)) => {
                &&& record.seq == self.number(i, k)
                &&& record.seq < self.range.next_seq
                &&& self.fenced(i + 1, i, k, self.view_at(i, k))
                &&& forall|m: int|
                    0 <= m < record.mutations@.len() ==> change_laws::all_bound(
                        #[trigger] record.mutations@[m],
                        self.binding(i)->Ok_0,
                    )
                &&& self.is_lacking(i, k) ==> self.restored_view <= self.view_at(i, k)
                    && self.is_in_time(i, k)
            },
        }
    }

    pub open spec fn all_frames(self, i: int) -> bool {
        forall|k: int| 0 <= k < self.decoded[i].frames@.len() ==> #[trigger] self.is_frame(i, k)
    }

    /// The range is one that the destination can take.
    pub open spec fn is_acceptable(self) -> bool {
        &&& plan::head_error(self.range@, self.apply_from, self.limits) is None
        &&& forall|i: int|
            0 <= i < self.range.runs@.len() ==> #[trigger] self.is_run(i) && self.all_frames(i)
        &&& self.range.from_seq + run_mutations(self.decoded, self.range.runs@.len() as int)
            == self.range.next_seq
    }

    /// The planned record stands for a mutation that the destination lacks, and
    /// is applied with the binding of its own run.
    pub open spec fn is_planned_well(
        self,
        r: PlannedRecord,
        remaps: Seq<Map<ComponentId, ApplyComponent>>,
    ) -> bool {
        let (i, k) = (r.source as int, r.frame as int);
        &&& i < self.decoded.len()
        &&& k < self.decoded[i].frames@.len()
        &&& self.is_lacking(i, k)
        &&& self.record(i, k).seq == r.seq
        &&& self.record(i, k).tick_after == r.tick_after
        &&& r.remap < remaps.len()
        &&& self.binding(i) == Ok::<Map<ComponentId, ApplyComponent>, WalError>(
            remaps[r.remap as int],
        )
    }

    /// What holds when `n` schemas and the frames before frame `k` of run `i`
    /// have been passed.
    spec fn holds_at(self, n: int, i: int, k: int, st: PlanState) -> bool {
        let frames = self.decoded[i].frames@;
        &&& st.expected_seq == self.number(i, k)
        &&& self.range.from_seq <= st.expected_seq <= self.range.next_seq
        &&& self.fenced(n, i, k, st.max_view)
        &&& forall|v: u64| #[trigger] self.fenced(n, i, k, v) ==> st.max_view <= v
        &&& st.controls_left == self.limits.max_control_frames - n - run_checkpoints(
            self.decoded,
            i,
        ) - checkpoints_upto(frames, k)
        &&& st.controls_left >= 0
        &&& st.previous_start == if n == 0 {
            None
        } else {
            Some(self.range.runs@[n - 1].segment_start_seq)
        }
        &&& st.remaps.len() == n
        &&& forall|j: int|
            0 <= j < n ==> self.binding(j) == Ok::<Map<ComponentId, ApplyComponent>, WalError>(
                #[trigger] st.remaps[j],
            )
        &&& forall|j: int|
            0 <= j < st.records.len() ==> self.is_planned_well(
                #[trigger] st.records[j],
                st.remaps,
            )
        &&& self.world.tick <= st.expected_tick
        &&& forall|a: int, b: int|
            self.is_before(a, b, i, k) && #[trigger] self.is_lacking(a, b) ==> self.record(
                a,
                b,
            ).tick_after < st.expected_tick
        &&& st.expected_tick == self.world.tick || exists|a: int, b: int|
            self.is_before(a, b, i, k) && #[trigger] self.is_lacking(a, b) && self.record(
                a,
                b,
            ).tick_after + 1 == st.expected_tick
    }

    proof fn lemma_frame(self, i: int, k: int, st: PlanState)
        requires
            0 <= i < self.decoded.len() <= usize::MAX,
            0 <= k < self.decoded[i].frames@.len(),
            self.range.from_seq <= self.apply_from,
            self.holds_at(i + 1, i, k, st),
        ensures
            ({
                let r = plan::plan_frame(
                    self.request(),
                    st,
                    self.frame(i, k),
                    i as usize,
                    k as usize,
                );
                &&& r is Ok <==> self.is_frame(i, k)
                &&& r matches Ok(next) ==> self.holds_at(i + 1, i, k + 1, next)
            }),
    {
        let frames = self.decoded[i].frames;
        assert(frames.len() == frames@.len());
        let f = self.frame(i, k);
        let view = self.view_at(i, k);
        let r = plan::plan_frame(self.request(), st, f, i as usize, k as usize);
        assert forall|a: int, b: int| self.is_before(a, b, i, k + 1) implies self.is_before(
            a,
            b,
            i,
            k,
        ) || (a == i && b == k) by {}
        if let Ok(WalEntry::Mutations(record)) = f.spec_decode() {
            assert(self.binding(i) == Ok::<Map<ComponentId, ApplyComponent>, WalError>(
                st.remaps[i],
            ));
            change_laws::lemma_passes(record.mutations@, 0, st.remaps.last(), self.codecs);
            assert(self.fenced(i + 1, i, k, view) <==> st.max_view <= view) by {
                if st.max_view <= view {
                    assert forall|a: int, b: int|
                        self.is_before(a, b, i, k) implies #[trigger] self.view_at(a, b)
                        <= view by {}
                }
            }
            if self.is_lacking(i, k) {
                assert(self.is_in_time(i, k) <==> st.expected_tick <= record.tick_after < u64::MAX)
                by {
                    if self.is_in_time(i, k) && st.expected_tick != self.world.tick {
                        let (a, b) = choose|a: int, b: int|
                            self.is_before(a, b, i, k) && #[trigger] self.is_lacking(a, b)
                                && self.record(a, b).tick_after + 1 == st.expected_tick;
                        assert(self.record(a, b).tick_after < record.tick_after);
                    }
                }
            }
        }
        if let Ok(next) = r {
            assert(self.is_before(i, k, i, k + 1));
            assert(self.fenced(i + 1, i, k + 1, next.max_view)) by {
                assert forall|a: int, b: int|
                    self.is_before(a, b, i, k + 1) implies #[trigger] self.view_at(a, b)
                    <= next.max_view by {
                    if !(a == i && b == k) {
                        assert(self.is_before(a, b, i, k));
                    }
                }
            }
            assert forall|v: u64| #[trigger] self.fenced(i + 1, i, k + 1, v) implies next.max_view
                <= v by {
                assert(self.view_at(i, k) <= v);
                assert(self.fenced(i + 1, i, k, v)) by {
                    assert forall|a: int, b: int|
                        self.is_before(a, b, i, k) implies #[trigger] self.view_at(a, b)
                        <= v by {
                        assert(self.is_before(a, b, i, k + 1));
                    }
                }
            }
            assert forall|a: int, b: int|
                self.is_before(a, b, i, k + 1) && #[trigger] self.is_lacking(
                    a,
                    b,
                ) implies self.record(a, b).tick_after < next.expected_tick by {
                if !(a == i && b == k) {
                    assert(self.is_before(a, b, i, k));
                }
            }
            if next.expected_tick != self.world.tick {
                if self.is_lacking(i, k) {
                    assert(self.record(i, k).tick_after + 1 == next.expected_tick);
                } else {
                    let (a, b) = choose|a: int, b: int|
                        self.is_before(a, b, i, k) && #[trigger] self.is_lacking(a, b)
                            && self.record(a, b).tick_after + 1 == st.expected_tick;
                    assert(self.is_before(a, b, i, k + 1) && self.is_lacking(a, b));
                }
            }
            assert forall|j: int| 0 <= j < next.records.len() implies self.is_planned_well(
                #[trigger] next.records[j],
                next.remaps,
            ) by {
                if j < st.records.len() {
                    assert(next.records[j] == st.records[j]);
                }
            }
        }
    }

    proof fn lemma_frames(self, i: int, k: int, st: PlanState)
        requires
            0 <= i < self.decoded.len() <= usize::MAX,
            0 <= k <= self.decoded[i].frames@.len(),
            self.range.from_seq <= self.apply_from,
            self.holds_at(i + 1, i, k, st),
        ensures
            ({
                let r = plan::plan_frames(self.request(), st, self.decoded[i], i as usize, k);
                let n = self.decoded[i].frames@.len() as int;
                &&& r is Ok <==> self.decoded[i].failure is None && forall|l: int|
                    k <= l < n ==> #[trigger] self.is_frame(i, l)
                &&& r matches Ok(next) ==> self.holds_at(i + 1, i, n, next)
            }),
        decreases self.decoded[i].frames@.len() - k,
    {
        if k < self.decoded[i].frames@.len() {
            self.lemma_frame(i, k, st);
            if let Ok(next) = plan::plan_frame(
                self.request(),
                st,
                self.frame(i, k),
                i as usize,
                k as usize,
            ) {
                self.lemma_frames(i, k + 1, next);
            }
        }
    }

    /// What holds at the end of a run holds at the start of the next.
    proof fn lemma_next_run(self, i: int, st: PlanState)
        requires
            0 <= i < self.decoded.len(),
            self.holds_at(i + 1, i, self.decoded[i].frames@.len() as int, st),
        ensures
            self.holds_at(i + 1, i + 1, 0, st),
    {
        let n = self.decoded[i].frames@.len() as int;
        assert forall|a: int, b: int|
            #![trigger self.is_before(a, b, i, n)]
            #![trigger self.is_before(a, b, i + 1, 0)]
            self.is_before(a, b, i, n) <==> self.is_before(a, b, i + 1, 0) by {}
        assert forall|v: u64| #[trigger] self.fenced(i + 1, i + 1, 0, v) implies st.max_view
            <= v by {
            assert(self.fenced(i + 1, i, n, v)) by {
                assert forall|a: int, b: int|
                    self.is_before(a, b, i, n) implies #[trigger] self.view_at(a, b) <= v by {
                    assert(self.is_before(a, b, i + 1, 0));
                }
            }
        }
        assert(self.fenced(i + 1, i + 1, 0, st.max_view)) by {
            assert forall|a: int, b: int|
                self.is_before(a, b, i + 1, 0) implies #[trigger] self.view_at(a, b)
                <= st.max_view by {
                assert(self.is_before(a, b, i, n));
            }
        }
        assert forall|a: int, b: int|
            self.is_before(a, b, i + 1, 0) && #[trigger] self.is_lacking(a, b) implies self.record(
            a,
            b,
        ).tick_after < st.expected_tick by {
            assert(self.is_before(a, b, i, n));
        }
        if st.expected_tick != self.world.tick {
            let (a, b) = choose|a: int, b: int|
                self.is_before(a, b, i, n) && #[trigger] self.is_lacking(a, b) && self.record(
                    a,
                    b,
                ).tick_after + 1 == st.expected_tick;
            assert(self.is_before(a, b, i + 1, 0) && self.is_lacking(a, b));
        }
    }

    proof fn lemma_schema(self, i: int, st: PlanState)
        requires
            0 <= i < self.decoded.len(),
            self.decoded.len() == self.range.runs@.len(),
            self.holds_at(i, i, 0, st),
        ensures
            ({
                let r = plan::plan_schema(
                    self.request(),
                    st,
                    self.range.runs@[i],
                    self.decoded[i],
                );
                &&& r is Ok && self.decoded[i].failure is None <==> self.is_run(i)
                &&& r matches Ok(next) ==> self.holds_at(i + 1, i, 0, next)
            }),
    {
        let r = plan::plan_schema(self.request(), st, self.range.runs@[i], self.decoded[i]);
        if let Ok(next) = r {
            let view = self.schema_view(i);
            assert(self.fenced(i + 1, i, 0, next.max_view)) by {
                assert forall|a: int, b: int|
                    self.is_before(a, b, i, 0) implies #[trigger] self.view_at(a, b)
                    <= next.max_view by {}
            }
            assert forall|v: u64| #[trigger] self.fenced(i + 1, i, 0, v) implies next.max_view
                <= v by {
                assert(self.schema_view(i) <= v);
                assert(self.fenced(i, i, 0, v));
            }
            assert forall|j: int| 0 <= j < i + 1 implies self.binding(j) == Ok::<
                Map<ComponentId, ApplyComponent>,
                WalError,
            >(#[trigger] next.remaps[j]) by {
                if j < i {
                    assert(next.remaps[j] == st.remaps[j]);
                }
            }
            assert forall|j: int| 0 <= j < next.records.len() implies self.is_planned_well(
                #[trigger] next.records[j],
                next.remaps,
            ) by {
                assert(self.is_planned_well(st.records[j], st.remaps));
                assert(next.remaps[st.records[j].remap as int] == st.remaps[st.records[j].remap as int]);
            }
        }
    }

    proof fn lemma_runs(self, i: int, st: PlanState)
        requires
            0 <= i <= self.decoded.len() <= usize::MAX,
            self.decoded.len() == self.range.runs@.len(),
            self.range.from_seq <= self.apply_from,
            self.holds_at(i, i, 0, st),
        ensures
            ({
                let r = plan::plan_runs(
                    self.request(),
                    st,
                    self.range.runs@,
                    self.decoded,
                    i,
                );
                let n = self.decoded.len() as int;
                &&& r is Ok <==> forall|l: int|
                    i <= l < n ==> #[trigger] self.is_run(l) && self.all_frames(l)
                &&& r matches Ok(next) ==> self.holds_at(n, n, 0, next)
            }),
        decreases self.decoded.len() - i,
    {
        if i < self.decoded.len() {
            self.lemma_schema(i, st);
            if let Ok(bound) = plan::plan_schema(
                self.request(),
                st,
                self.range.runs@[i],
                self.decoded[i],
            ) {
                self.lemma_frames(i, 0, bound);
                if let Ok(next) = plan::plan_frames(
                    self.request(),
                    bound,
                    self.decoded[i],
                    i as usize,
                    0,
                ) {
                    self.lemma_next_run(i, next);
                    self.lemma_runs(i + 1, next);
                }
            }
        }
    }
}

/// A preflight lets a range through exactly where the destination can take all
/// of it: within the limits, from no later than its applied prefix, with every
/// number of the interval once and in order, none from a view older than one
/// before it or, if it is lacking, than the destination's own, at commit ticks
/// that go forward, and with all components bound by the run's own schema. It
/// then plans the records that are lacking, each with the binding of its run.
pub proof fn law_preflight_lets_acceptable_ranges_through(p: Preflight)
    requires
        p.decoded.len() == p.range.runs@.len(),
    ensures
        p.plan() is Ok <==> p.is_acceptable(),
        p.plan() matches Ok(plan) ==> {
            &&& forall|j: int|
                0 <= j < plan.records.len() ==> p.is_planned_well(
                    #[trigger] plan.records[j],
                    plan.remaps,
                )
            &&& p.range.next_seq > 0 ==> plan.last_seq == p.range.next_seq - 1
        },
{
    assert(p.range.runs.len() == p.range.runs@.len());
    if plan::head_error(p.range@, p.apply_from, p.limits) is None {
        let st = plan::plan_start(p.range, p.limits, p.world.tick);
        assert(p.fenced(0, 0, 0, st.max_view));
        assert(p.holds_at(0, 0, 0, st));
        p.lemma_runs(0, st);
    }
}

/// A range is within its limits: its interval, its runs and its bytes.
pub proof fn law_head_is_within_limits(
    range: WalFrameRange,
    apply_from: u64,
    limits: WalRangeLimits,
)
    ensures
        plan::head_error(range@, apply_from, limits) is None <==> {
            &&& limits.max_records > 0 && limits.max_bytes > 0 && limits.max_control_frames > 0
            &&& range.from_seq <= apply_from
            &&& range.from_seq <= range.next_seq
            &&& range.next_seq - range.from_seq <= limits.max_records
            &&& range.runs@.len() <= limits.max_control_frames
            &&& buffered(range, range.runs@.len() as int) <= limits.max_bytes
        },
{
    lemma_buffered(range, range.runs@.len() as int);
}

/// The combined length of the buffers of the first `n` runs.
pub open spec fn buffered(range: WalFrameRange, n: int) -> int
    decreases n,
{
    if n <= 0 {
        0
    } else {
        buffered(range, n - 1) + range.runs@[n - 1].schema_frame@.len()
            + range.runs@[n - 1].frames@.len()
    }
}

proof fn lemma_buffered(range: WalFrameRange, n: int)
    requires
        n <= range.runs@.len(),
    ensures
        buffered(range, n) == plan::run_bytes(range@.runs, n),
    decreases n,
{
    if n > 0 {
        lemma_buffered(range, n - 1);
        assert(range@.runs[n - 1] == range.runs@[n - 1]@);
    }
}

/// Splitting a run accounts for every byte: its frames lie end to end from the
/// start of the buffer, and without a failure they fill it. The schema is the
/// frame that its own buffer starts with.
pub proof fn law_split_accounts_for_every_byte(
    run: WalSegmentRun,
    schema: Result<RawFrame, WalError>,
    frames: Seq<RawFrame>,
    failure: Option<WalError>,
)
    requires
        plan::is_split(run, schema, frames, failure),
    ensures
        failure is None ==> frame::contiguous(frames, 0, run.frames@.len() as int),
        frame::frame_views(frames) == frame::stream(run.frames@, 0),
        failure is Some <==> frame::stream_end(run.frames@, 0) != run.frames@.len(),
        schema is Ok <==> frame::frame_at(run.schema_frame@, 0) is Whole,
        schema matches Ok(s) ==> frame::frame_at(run.schema_frame@, 0) == frame::FrameAt::Whole(
            s@,
        ),
{
    frame::lemma_stream_end(run.frames@, 0);
}

} // verus!
