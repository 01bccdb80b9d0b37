//! Laws on planning and ingesting one range twice: again later, or with codecs
//! registered in another order.
use crate::apply;
use crate::apply::{ApplyComponent, Codecs, WorldShape};
use crate::error::WalError;
use crate::frame;
use crate::ingest;
use crate::ingest::{EntryWork, IngestError, IngestView};
use crate::ingest_laws;
use crate::ingest_laws::Ingestion;
use crate::plan;
use crate::plan::{DecodedRun, PlanRequest, PlanState, PlanView};
use crate::range::{WalFrameRange, WalSegmentRun};
use crate::record::{ComponentId, SerializedMutation, WalEntry};
use crate::replication;
use crate::views;
use vstd::prelude::*;

verus! {

/// The two bindings know the same source components, and have columns for the
/// same of them.
pub open spec fn resolves_alike(
    m: Map<ComponentId, ApplyComponent>,
    n: Map<ComponentId, ApplyComponent>,
) -> bool {
    &&& forall|id: ComponentId| #[trigger] m.contains_key(id) <==> n.contains_key(id)
    &&& forall|id: ComponentId| #[trigger]
        m.contains_key(id) ==> (m[id].world_id is Some <==> n[id].world_id is Some)
}

proof fn lemma_first_alike(
    ids: Seq<ComponentId>,
    i: int,
    m: Map<ComponentId, ApplyComponent>,
    c: Codecs,
    n: Map<ComponentId, ApplyComponent>,
    d: Codecs,
)
    requires
        resolves_alike(m, n),
        apply::first_unresolved(ids, i, m, c) is None,
    ensures
        apply::first_unresolved(ids, i, n, d) is None,
    decreases ids.len() - i,
{
    if 0 <= i < ids.len() {
        assert(m.contains_key(ids[i]));
        lemma_first_alike(ids, i + 1, m, c, n, d);
    }
}

proof fn lemma_unresolved_alike(
    mutations: Seq<SerializedMutation>,
    i: int,
    m: Map<ComponentId, ApplyComponent>,
    c: Codecs,
    n: Map<ComponentId, ApplyComponent>,
    d: Codecs,
)
    requires
        resolves_alike(m, n),
        apply::unresolved_from(mutations, i, m, c) is None,
    ensures
        apply::unresolved_from(mutations, i, n, d) is None,
    decreases mutations.len() - i,
{
    if 0 <= i < mutations.len() {
        lemma_first_alike(apply::refs_of(mutations[i]), 0, m, c, n, d);
        lemma_unresolved_alike(mutations, i + 1, m, c, n, d);
    }
}

/// Where a follower applies: what it resolves names against.
pub struct Ground {
    pub world: WorldShape,
    pub codecs: Codecs,
}

/// The same stable names have columns in both worlds.
pub open spec fn registers_alike(a: Ground, b: Ground) -> bool {
    forall|name: Seq<char>| #[trigger]
        apply::column_of(a.world.columns@, name) is Some <==> apply::column_of(
            b.world.columns@,
            name,
        ) is Some
}

/// The pairs bind the same source components to codecs of the same names.
pub open spec fn same_names(
    p: Seq<(ComponentId, ComponentId)>,
    a: Ground,
    q: Seq<(ComponentId, ComponentId)>,
    b: Ground,
) -> bool {
    &&& p.len() == q.len()
    &&& forall|i: int|
        #![trigger p[i]]
        #![trigger q[i]]
        0 <= i < p.len() ==> {
            &&& p[i].0 == q[i].0
            &&& a.codecs.spec_stable_name(p[i].1) matches Some(n)
                && b.codecs.spec_stable_name(q[i].1) matches Some(m) && n@ == m@
        }
}

proof fn lemma_bound_alike(
    p: Seq<(ComponentId, ComponentId)>,
    a: Ground,
    q: Seq<(ComponentId, ComponentId)>,
    b: Ground,
)
    requires
        same_names(p, a, q, b),
        registers_alike(a, b),
    ensures
        apply::bound_pairs(p, a.world, a.codecs) matches Ok(m) && apply::bound_pairs(
            q,
            b.world,
            b.codecs,
        ) matches Ok(n) && resolves_alike(m, n),
    decreases p.len(),
{
    if p.len() > 0 {
        let (x, y) = (p.drop_last(), q.drop_last());
        assert forall|i: int| 0 <= i < x.len() implies #[trigger] x[i] == p[i] by {}
        assert forall|i: int| 0 <= i < y.len() implies #[trigger] y[i] == q[i] by {}
        assert(same_names(x, a, y, b)) by {
            assert forall|i: int|
                #![trigger x[i]]
                #![trigger y[i]]
                0 <= i < x.len() implies x[i].0 == y[i].0 && (a.codecs.spec_stable_name(
                x[i].1,
            ) matches Some(n) && b.codecs.spec_stable_name(y[i].1) matches Some(m) && n@
                == m@) by {
                assert(p[i].0 == q[i].0);
            }
        }
        lemma_bound_alike(x, a, y, b);
        assert(p[p.len() - 1].0 == q[p.len() - 1].0);
        let name = a.codecs.spec_stable_name(p.last().1)->Some_0;
        assert(apply::column_of(a.world.columns@, name@) is Some <==> apply::column_of(
            b.world.columns@,
            name@,
        ) is Some);
    }
}

/// The two decodings of a run see the same frames, and bind its schema to the
/// same names.
pub open spec fn decoded_alike(d: DecodedRun, a: Ground, e: DecodedRun, b: Ground) -> bool {
    &&& d.failure == e.failure
    &&& d.frames@.len() == e.frames@.len()
    &&& forall|k: int|
        #![trigger d.frames@[k]]
        #![trigger e.frames@[k]]
        0 <= k < d.frames@.len() ==> {
            &&& d.frames@[k].spec_decode() == e.frames@[k].spec_decode()
            &&& d.frames@[k].frame.spec_stamp() == e.frames@[k].frame.spec_stamp()
        }
    &&& match (d.schema, e.schema) {
        (Ok(f), Ok(g)) => {
            &&& f.spec_decode() == g.spec_decode()
            &&& f.frame.spec_stamp() == g.frame.spec_stamp()
            &&& f.frame.spec_end() == g.frame.spec_end()
            &&& f.binding matches Ok(p) ==> {
                &&& g.binding matches Ok(q) && same_names(p@, a, q@, b) && apply::pair_codecs(
                    p@,
                ).len() == apply::pair_codecs(q@).len()
            }
        },
        (Err(x), Err(y)) => x == y,
        _ => false,
    }
}

pub open spec fn all_decoded_alike(
    d: Seq<DecodedRun>,
    a: Ground,
    e: Seq<DecodedRun>,
    b: Ground,
) -> bool {
    &&& d.len() == e.len()
    &&& forall|i: int|
        #![trigger d[i]]
        #![trigger e[i]]
        0 <= i < d.len() ==> decoded_alike(d[i], a, e[i], b)
}

/// How two preflights of one range stand to each other: with `same`, both plan
/// the same records; otherwise the second plans none.
spec fn alike(st: PlanState, tt: PlanState, same: bool) -> bool {
    &&& st.expected_seq == tt.expected_seq
    &&& st.max_view == tt.max_view
    &&& st.controls_left == tt.controls_left
    &&& st.previous_start == tt.previous_start
    &&& st.remaps.len() == tt.remaps.len()
    &&& st.remaps.len() > 0 ==> resolves_alike(st.remaps.last(), tt.remaps.last())
    &&& same ==> st.records == tt.records && st.expected_tick == tt.expected_tick
    &&& !same ==> tt.records.len() == 0
}

/// The second request asks for the same, or for nothing that is not applied.
spec fn asks_alike(req: PlanRequest, seq: PlanRequest, same: bool) -> bool {
    &&& req.from_seq == seq.from_seq
    &&& req.next_seq == seq.next_seq
    &&& same ==> req.apply_from == seq.apply_from && req.restored_view == seq.restored_view
    &&& !same ==> seq.apply_from >= req.next_seq
}

spec fn ground_of(req: PlanRequest) -> Ground {
    Ground { world: req.world, codecs: req.codecs }
}

proof fn lemma_frames_alike(
    req: PlanRequest,
    st: PlanState,
    d: DecodedRun,
    seq: PlanRequest,
    tt: PlanState,
    e: DecodedRun,
    source: usize,
    k: int,
    same: bool,
)
    requires
        asks_alike(req, seq, same),
        alike(st, tt, same),
        decoded_alike(d, ground_of(req), e, ground_of(seq)),
        st.remaps.len() > 0,
        0 <= k,
        plan::plan_frames(req, st, d, source, k) is Ok,
    ensures
        plan::plan_frames(seq, tt, e, source, k) matches Ok(after) && alike(
            plan::plan_frames(req, st, d, source, k)->Ok_0,
            after,
            same,
        ),
    decreases d.frames@.len() - k,
{
    if k < d.frames@.len() {
        let f = d.frames@[k];
        assert(f.spec_decode() == e.frames@[k].spec_decode());
        let next = plan::plan_frame(req, st, f, source, k as usize)->Ok_0;
        if let Ok(WalEntry::Mutations(record)) = f.spec_decode() {
            lemma_unresolved_alike(
                record.mutations@,
                0,
                st.remaps.last(),
                req.codecs,
                tt.remaps.last(),
                seq.codecs,
            );
        }
        let step = plan::plan_frame(seq, tt, e.frames@[k], source, k as usize);
        assert(step is Ok);
        assert(alike(next, step->Ok_0, same));
        lemma_frames_alike(req, next, d, seq, step->Ok_0, e, source, k + 1, same);
    }
}

proof fn lemma_runs_alike(
    req: PlanRequest,
    st: PlanState,
    d: Seq<DecodedRun>,
    seq: PlanRequest,
    tt: PlanState,
    e: Seq<DecodedRun>,
    runs: Seq<WalSegmentRun>,
    i: int,
    same: bool,
)
    requires
        asks_alike(req, seq, same),
        alike(st, tt, same),
        all_decoded_alike(d, ground_of(req), e, ground_of(seq)),
        registers_alike(ground_of(req), ground_of(seq)),
        d.len() == runs.len(),
        0 <= i,
        plan::plan_runs(req, st, runs, d, i) is Ok,
    ensures
        plan::plan_runs(seq, tt, runs, e, i) matches Ok(after) && alike(
            plan::plan_runs(req, st, runs, d, i)->Ok_0,
            after,
            same,
        ),
    decreases runs.len() - i,
{
    if i < runs.len() {
        assert(decoded_alike(d[i], ground_of(req), e[i], ground_of(seq)));
        let bound = plan::plan_schema(req, st, runs[i], d[i])->Ok_0;
        let f = d[i].schema->Ok_0;
        let g = e[i].schema->Ok_0;
        if let Ok(p) = f.binding {
            let q = g.binding->Ok_0;
            lemma_bound_alike(p@, ground_of(req), q@, ground_of(seq));
            assert(apply::pair_sources(p@) =~= apply::pair_sources(q@)) by {
                let s = Seq::new(p@.len(), |k: int| p@[k].0);
                let t = Seq::new(q@.len(), |k: int| q@[k].0);
                assert forall|k: int| 0 <= k < s.len() implies #[trigger] s[k] == t[k] by {
                    assert(p@[k].0 == q@[k].0);
                }
                assert(s =~= t);
            }
        }
        let other = plan::plan_schema(seq, tt, runs[i], e[i]);
        assert(other is Ok);
        assert(alike(bound, other->Ok_0, same));
        lemma_frames_alike(req, bound, d[i], seq, other->Ok_0, e[i], i as usize, 0, same);
        let next = plan::plan_frames(req, bound, d[i], i as usize, 0)->Ok_0;
        let after = plan::plan_frames(seq, other->Ok_0, e[i], i as usize, 0)->Ok_0;
        lemma_remaps_kept(req, bound, d[i], i as usize, 0);
        lemma_runs_alike(req, next, d, seq, after, e, runs, i + 1, same);
    }
}

proof fn lemma_remaps_kept(req: PlanRequest, st: PlanState, d: DecodedRun, source: usize, k: int)
    requires
        plan::plan_frames(req, st, d, source, k) is Ok,
    ensures
        plan::plan_frames(req, st, d, source, k)->Ok_0.remaps == st.remaps,
    decreases d.frames@.len() - k,
{
    if 0 <= k < d.frames@.len() {
        let next = plan::plan_frame(req, st, d.frames@[k], source, k as usize)->Ok_0;
        lemma_remaps_kept(req, next, d, source, k + 1);
    }
}

/// The highest view of a run's frames from the `k`-th on, or 0.
pub open spec fn frames_view(d: DecodedRun, k: int) -> u64
    decreases d.frames@.len() - k,
{
    if k < 0 || k >= d.frames@.len() {
        0
    } else {
        views::max_u64(d.frames@[k].frame.spec_stamp(), frames_view(d, k + 1))
    }
}

/// The highest view of the runs from the `i`-th on, schemas included, or 0.
pub open spec fn runs_view(d: Seq<DecodedRun>, i: int) -> u64
    decreases d.len() - i,
{
    if i < 0 || i >= d.len() {
        0
    } else {
        let schema = d[i].schema->Ok_0.frame.spec_stamp();
        views::max_u64(views::max_u64(schema, frames_view(d[i], 0)), runs_view(d, i + 1))
    }
}

/// The highest view that a range carries: that of its seed or of any frame.
pub open spec fn range_view(range: WalFrameRange, d: Seq<DecodedRun>) -> u64 {
    views::max_u64(range.seed_view, runs_view(d, 0))
}

proof fn lemma_frames_view(req: PlanRequest, st: PlanState, d: DecodedRun, source: usize, k: int)
    requires
        0 <= k,
        plan::plan_frames(req, st, d, source, k) is Ok,
    ensures
        plan::plan_frames(req, st, d, source, k)->Ok_0.max_view == views::max_u64(
            st.max_view,
            frames_view(d, k),
        ),
    decreases d.frames@.len() - k,
{
    if k < d.frames@.len() {
        let next = plan::plan_frame(req, st, d.frames@[k], source, k as usize)->Ok_0;
        lemma_frames_view(req, next, d, source, k + 1);
    }
}

proof fn lemma_runs_view(
    req: PlanRequest,
    st: PlanState,
    runs: Seq<WalSegmentRun>,
    d: Seq<DecodedRun>,
    i: int,
)
    requires
        0 <= i,
        d.len() == runs.len(),
        plan::plan_runs(req, st, runs, d, i) is Ok,
    ensures
        plan::plan_runs(req, st, runs, d, i)->Ok_0.max_view == views::max_u64(
            st.max_view,
            runs_view(d, i),
        ),
    decreases runs.len() - i,
{
    if i < runs.len() {
        let bound = plan::plan_schema(req, st, runs[i], d[i])->Ok_0;
        lemma_frames_view(req, bound, d[i], i as usize, 0);
        let next = plan::plan_frames(req, bound, d[i], i as usize, 0)->Ok_0;
        lemma_runs_view(req, next, runs, d, i + 1);
    }
}

/// A plan leaves behind exactly the highest of the restored view, the range's
/// seed and the views of all its frames.
pub proof fn law_plan_view_is_the_highest(
    f: IngestView,
    range: WalFrameRange,
    d: Seq<DecodedRun>,
)
    requires
        plan::decodes_range(range, d),
        f.planned(range, d) is Ok,
    ensures
        f.planned(range, d)->Ok_0.max_view == views::max_u64(f.view, range_view(range, d)),
{
    let req = f.plan_request(range);
    let st = plan::plan_start(range, f.limits, f.world.tick);
    lemma_runs_view(req, st, range.runs@, d, 0);
}

/// A successful ingestion takes the follower's view to exactly the highest of
/// its own, the range's seed and the views of all the range's frames.
pub proof fn law_ingestion_takes_the_highest_view(f: IngestView, one: Ingestion)
    requires
        plan::decodes_range(one.range, one.decoded),
        one.run(f).1 is Ok,
    ensures
        one.run(f).0.view == views::max_u64(f.view, range_view(one.range, one.decoded)),
{
    law_plan_view_is_the_highest(f, one.range, one.decoded);
    if let Ok(Some(plan)) = f.prepared(one.history, one.range, one.decoded) {
        lemma_followed_view(plan, f.follower, one.outcomes, 0);
    }
}

proof fn lemma_followed_view(
    plan: PlanView,
    follower: replication::FollowerView,
    outcomes: Seq<Result<(), WalError>>,
    i: int,
)
    ensures
        plan.followed(follower, outcomes, i).1 matches Ok(view) ==> view == plan.max_view,
    decreases plan.records.len() - i,
{
    if 0 <= i < plan.records.len() {
        let (next, _) = follower.next(plan.records[i].seq, outcomes[i]);
        lemma_followed_view(plan, next, outcomes, i + 1);
    }
}

/// `g` is the same follower as `f` further on, and healthy.
pub open spec fn further_on(f: IngestView, g: IngestView) -> bool {
    &&& g.history == f.history
    &&& g.limits == f.limits
    &&& g.codecs == f.codecs
    &&& g.world.columns == f.world.columns
    &&& g.follower.applied >= f.follower.applied
    &&& g.view >= f.view
    &&& !g.follower.poisoned
}

/// Ingesting takes a follower further on.
pub proof fn law_ingestion_goes_further_on(f: IngestView, one: Ingestion)
    requires
        plan::decodes_range(one.range, one.decoded),
        one.run(f).1 is Ok,
        f.prepared(one.history, one.range, one.decoded) matches Ok(Some(plan))
            ==> replication::outcomes_cover(one.outcomes, plan.records.len() as int),
    ensures
        further_on(f, one.run(f).0),
{
    ingest_laws::law_ingestion_reaches_range_end(f, one);
    law_ingestion_takes_the_highest_view(f, one);
}

proof fn lemma_bound_named(p: Seq<(ComponentId, ComponentId)>, a: Ground)
    requires
        apply::bound_pairs(p, a.world, a.codecs) is Ok,
    ensures
        forall|i: int|
            0 <= i < p.len() ==> a.codecs.spec_stable_name((#[trigger] p[i]).1) is Some,
    decreases p.len(),
{
    if p.len() > 0 {
        lemma_bound_named(p.drop_last(), a);
        assert forall|i: int| 0 <= i < p.len() implies a.codecs.spec_stable_name(
            (#[trigger] p[i]).1,
        ) is Some by {
            if i < p.len() - 1 {
                assert(p.drop_last()[i] == p[i]);
            }
        }
    }
}

/// What was planned once binds the same way wherever the codecs are the same.
proof fn lemma_self_alike(
    req: PlanRequest,
    st: PlanState,
    runs: Seq<WalSegmentRun>,
    d: Seq<DecodedRun>,
    i: int,
    b: Ground,
)
    requires
        0 <= i,
        d.len() == runs.len(),
        b.codecs == req.codecs,
        plan::plan_runs(req, st, runs, d, i) is Ok,
    ensures
        forall|j: int| i <= j < d.len() ==> decoded_alike(#[trigger] d[j], ground_of(req), d[j], b),
    decreases runs.len() - i,
{
    if i < runs.len() {
        let bound = plan::plan_schema(req, st, runs[i], d[i])->Ok_0;
        let next = plan::plan_frames(req, bound, d[i], i as usize, 0)->Ok_0;
        lemma_self_alike(req, next, runs, d, i + 1, b);
        let f = d[i].schema->Ok_0;
        let p = f.binding->Ok_0;
        lemma_bound_named(p@, ground_of(req));
        assert(same_names(p@, ground_of(req), p@, b));
        assert(decoded_alike(d[i], ground_of(req), d[i], b));
    }
}

/// A range once ingested is a duplicate ever after: at any state further on, it
/// prepares to nothing, and ingesting it again changes nothing.
pub proof fn law_ingested_range_is_a_duplicate(
    f: IngestView,
    one: Ingestion,
    g: IngestView,
    again: Ingestion,
)
    requires
        plan::decodes_range(one.range, one.decoded),
        one.run(f).1 is Ok,
        f.prepared(one.history, one.range, one.decoded) matches Ok(Some(plan))
            ==> replication::outcomes_cover(one.outcomes, plan.records.len() as int),
        further_on(one.run(f).0, g),
        again.history == one.history,
        again.range == one.range,
        again.decoded == one.decoded,
    ensures
        g.prepared(again.history, again.range, again.decoded) == Ok::<
            Option<PlanView>,
            IngestError,
        >(None),
        again.run(g) == (g, Ok::<u64, IngestError>(g.follower.applied)),
{
    let range = one.range;
    ingest_laws::law_ingestion_reaches_range_end(f, one);
    law_ingestion_takes_the_highest_view(f, one);
    let req = f.plan_request(range);
    let seq = g.plan_request(range);
    let st = plan::plan_start(range, f.limits, f.world.tick);
    let tt = plan::plan_start(range, g.limits, g.world.tick);
    assert(registers_alike(ground_of(req), ground_of(seq)));
    lemma_self_alike(req, st, range.runs@, one.decoded, 0, ground_of(seq));
    lemma_runs_alike(req, st, one.decoded, seq, tt, one.decoded, range.runs@, 0, false);
    lemma_runs_view(req, st, range.runs@, one.decoded, 0);
}

/// The two followers have come equally far.
pub open spec fn equally_far(f: IngestView, g: IngestView) -> bool {
    &&& g.history == f.history
    &&& g.limits == f.limits
    &&& g.follower == f.follower
    &&& g.view == f.view
    &&& g.world.tick == f.world.tick
}

/// `work[i]` decodes each entry for the other follower, and applies it as the
/// ingestion did.
pub open spec fn work_alike(
    ingestions: Seq<Ingestion>,
    f: IngestView,
    work: Seq<EntryWork>,
    g: IngestView,
) -> bool {
    &&& work.len() == ingestions.len()
    &&& forall|i: int|
        #![trigger work[i]]
        0 <= i < work.len() ==> {
            &&& work[i].entry matches Ok(entry) && entry.history@ == ingestions[i].history
                && entry.range == ingestions[i].range
            &&& plan::decodes_range(ingestions[i].range, ingestions[i].decoded)
            &&& all_decoded_alike(
                ingestions[i].decoded,
                f.ground(),
                work[i].decoded@,
                g.ground(),
            )
            &&& work[i].outcomes@ == ingestions[i].outcomes
        }
}

proof fn lemma_followed_alike(
    p: PlanView,
    q: PlanView,
    follower: replication::FollowerView,
    outcomes: Seq<Result<(), WalError>>,
    i: int,
)
    requires
        p.records == q.records,
        p.max_view == q.max_view,
    ensures
        p.followed(follower, outcomes, i) == q.followed(follower, outcomes, i),
    decreases p.records.len() - i,
{
    if 0 <= i < p.records.len() {
        let (next, _) = follower.next(p.records[i].seq, outcomes[i]);
        lemma_followed_alike(p, q, next, outcomes, i + 1);
    }
}

/// What one follower ingested, the other replays to the same effect.
proof fn lemma_replayed_alike(f: IngestView, g: IngestView, one: Ingestion, e: Seq<DecodedRun>)
    requires
        one.run(f).1 is Ok,
        plan::decodes_range(one.range, one.decoded),
        equally_far(f, g),
        registers_alike(f.ground(), g.ground()),
        all_decoded_alike(one.decoded, f.ground(), e, g.ground()),
    ensures
        ({
            let (after, r) = g.replayed(one.history, one.range, e, one.outcomes);
            let live = one.run(f).0;
            &&& r is Ok
            &&& equally_far(live, after)
            &&& after.codecs == g.codecs
            &&& after.world.columns == g.world.columns
            &&& live.codecs == f.codecs
            &&& live.world.columns == f.world.columns
        }),
{
    let range = one.range;
    let req = f.plan_request(range);
    let seq = g.plan_request(range);
    let st = plan::plan_start(range, f.limits, f.world.tick);
    let tt = plan::plan_start(range, g.limits, g.world.tick);
    lemma_runs_alike(req, st, one.decoded, seq, tt, e, range.runs@, 0, true);
    if let Ok(Some(p)) = f.prepared(one.history, range, one.decoded) {
        let q = g.prepared(one.history, range, e)->Ok_0->Some_0;
        lemma_followed_alike(p, q, f.follower, one.outcomes, 0);
    }
}

proof fn lemma_journal_alike(
    f: IngestView,
    g: IngestView,
    ingestions: Seq<Ingestion>,
    work: Seq<EntryWork>,
    lead: Seq<u8>,
    i: int,
)
    requires
        0 <= i <= ingestions.len(),
        work_alike(ingestions, f, work, g),
        ingest_laws::all_journaled(f, ingestions, i),
        equally_far(f, g),
        registers_alike(f.ground(), g.ground()),
    ensures
        ({
            let bytes = lead + ingest_laws::journal_tail(ingestions, i);
            ingest::journal_run(g, bytes, lead.len() as int, work, i) matches Ok((after, kept))
                && kept == bytes.len() && equally_far(
                ingest_laws::after_all(f, ingestions, i),
                after,
            )
        }),
    decreases ingestions.len() - i,
{
    let bytes = lead + ingest_laws::journal_tail(ingestions, i);
    if i == ingestions.len() {
        assert(bytes =~= lead);
    } else {
        let one = ingestions[i];
        let first = ingest::journal_frame(one.payload);
        let rest = ingest_laws::journal_tail(ingestions, i + 1);
        assert(one.payload.len() <= frame::MAX_FRAME_SIZE);
        ingest::law_journal_entry_reads_back(lead, one.payload, rest);
        assert(lead + first + rest =~= bytes);
        crate::frame_laws::law_header_reads_back(
            one.payload,
            ingest::length_guard(one.payload.len() as u32),
        );
        assert((lead + first).len() == lead.len() + 16 + one.payload.len());
        assert(work[i].outcomes@ == one.outcomes);
        lemma_replayed_alike(f, g, one, work[i].decoded@);
        let live = one.run(f).0;
        let after = g.replayed(one.history, one.range, work[i].decoded@, one.outcomes).0;
        assert(work_alike(ingestions, live, work, after)) by {
            assert forall|j: int|
                #![trigger work[j]]
                0 <= j < work.len() implies all_decoded_alike(
                ingestions[j].decoded,
                live.ground(),
                work[j].decoded@,
                after.ground(),
            ) by {
                lemma_ground_moves(
                    ingestions[j].decoded,
                    f,
                    live,
                    work[j].decoded@,
                    g,
                    after,
                );
            }
        }
        lemma_journal_alike(live, after, ingestions, work, lead + first, i + 1);
        assert((lead + first) + rest =~= bytes);
    }
}

/// Only codecs and columns matter to a binding, not the tick.
proof fn lemma_ground_moves(
    d: Seq<DecodedRun>,
    f: IngestView,
    live: IngestView,
    e: Seq<DecodedRun>,
    g: IngestView,
    after: IngestView,
)
    requires
        all_decoded_alike(d, f.ground(), e, g.ground()),
        live.codecs == f.codecs,
        after.codecs == g.codecs,
    ensures
        all_decoded_alike(d, live.ground(), e, after.ground()),
{
    assert forall|i: int|
        #![trigger d[i]]
        #![trigger e[i]]
        0 <= i < d.len() implies decoded_alike(d[i], live.ground(), e[i], after.ground()) by {
        assert(decoded_alike(d[i], f.ground(), e[i], g.ground()));
    }
}

/// Restart reconstructs the follower also where its codecs are registered in
/// another order: replaying the journal of `f` with codecs and columns of the
/// same stable names goes through, keeps the whole journal, and gives back the
/// applied prefix, the view, the health and the world's tick.
pub proof fn law_restart_with_other_codecs(
    f: IngestView,
    g: IngestView,
    ingestions: Seq<Ingestion>,
    work: Seq<EntryWork>,
)
    requires
        f.history.len() == 16,
        equally_far(f, g),
        registers_alike(f.ground(), g.ground()),
        ingest_laws::all_taken(f, ingestions, 0),
        work_alike(ingest_laws::journaled(f, ingestions, 0), f, work, g),
    ensures
        ({
            let bytes = ingest_laws::journal_of(f, ingestions);
            &&& ingest::header_check(bytes, g.history) is Ok
            &&& ingest::journal_run(g, bytes, 24, work, 0) matches Ok((after, kept)) && kept
                == bytes.len() && equally_far(ingest_laws::after_all(f, ingestions, 0), after)
        }),
{
    let header = ingest::journal_header(f.history);
    let entries = ingest_laws::journaled(f, ingestions, 0);
    ingest::law_journal_header_reads_back(f.history, ingest_laws::journal_tail(entries, 0));
    vstd::bytes::lemma_auto_spec_u32_to_from_le_bytes();
    assert(header.len() == 24);
    ingest_laws::lemma_journaled(f, ingestions, 0);
    lemma_journal_alike(f, g, entries, work, header, 0);
}

impl IngestView {
    /// The plan of a range for this follower.
    pub open spec fn planned(self, range: WalFrameRange, d: Seq<DecodedRun>) -> Result<
        PlanView,
        WalError,
    > {
        plan::range_plan(
            range,
            d,
            self.view,
            self.follower.applied,
            self.limits,
            self.world,
            self.codecs,
        )
    }

    pub open spec fn plan_request(self, range: WalFrameRange) -> PlanRequest {
        PlanRequest {
            from_seq: range.from_seq,
            next_seq: range.next_seq,
            restored_view: self.view,
            apply_from: self.follower.applied,
            world: self.world,
            codecs: self.codecs,
        }
    }

    pub open spec fn ground(self) -> Ground {
        Ground { world: self.world, codecs: self.codecs }
    }
}

} // verus!
