//! Laws on replaying a whole log.
use crate::apply::{Codecs, WorldShape};
use crate::plan;
use crate::plan::{PlanView, PlannedRecord, ReplayState};
use crate::plan_laws;
use crate::record::WalEntry;
use crate::segment::SegmentImage;
use vstd::prelude::*;

verus! {

/// The view of frame `k` of segment `i`.
pub open spec fn view_at(segments: Seq<SegmentImage>, i: int, k: int) -> u64 {
    segments[i].frames@[k].frame.spec_stamp()
}

/// No frame before frame `k` of segment `i` carries a view above `view`.
pub open spec fn fenced(segments: Seq<SegmentImage>, i: int, k: int, view: u64) -> bool {
    forall|a: int, b: int|
        #![trigger view_at(segments, a, b)]
        0 <= a < segments.len() && 0 <= b < segments[a].frames@.len() && (a < i || a == i && b < k)
            ==> view_at(segments, a, b) <= view
}

/// Some frame of the log carries `view`.
pub open spec fn carried(segments: Seq<SegmentImage>, view: u64) -> bool {
    exists|a: int, b: int|
        0 <= a < segments.len() && 0 <= b < segments[a].frames@.len() && #[trigger] view_at(
            segments,
            a,
            b,
        ) == view
}

/// The planned record stands in the log, at or after `from_seq`, and no frame
/// before it carries a newer view.
pub open spec fn soundly_planned(
    segments: Seq<SegmentImage>,
    from_seq: u64,
    r: PlannedRecord,
) -> bool {
    &&& r.source < segments.len()
    &&& r.frame < segments[r.source as int].frames@.len()
    &&& segments[r.source as int].frames@[r.frame as int].spec_decode() matches Ok(
        WalEntry::Mutations(record),
    ) && record.seq == r.seq && record.tick_after == r.tick_after
    &&& r.seq >= from_seq
    &&& fenced(
        segments,
        r.source as int,
        r.frame as int,
        view_at(segments, r.source as int, r.frame as int),
    )
}

/// Record `r` of the log comes before record `s`.
pub open spec fn before(r: PlannedRecord, s: PlannedRecord) -> bool {
    r.source < s.source || r.source == s.source && r.frame < s.frame
}

pub open spec fn in_log_order(records: Seq<PlannedRecord>) -> bool {
    forall|i: int, j: int|
        #![trigger records[i], records[j]]
        0 <= i < j < records.len() ==> before(records[i], records[j])
}

/// Frame `k` of segment `i` holds a record at or after `from_seq`, and no
/// frame before it carries a newer view.
pub open spec fn due(segments: Seq<SegmentImage>, from_seq: u64, i: int, k: int) -> bool {
    &&& 0 <= i < segments.len()
    &&& 0 <= k < segments[i].frames@.len()
    &&& segments[i].frames@[k].spec_decode() matches Ok(WalEntry::Mutations(record)) && record.seq
        >= from_seq
    &&& fenced(segments, i, k, view_at(segments, i, k))
}

/// The record in frame `k` of segment `i` is among those planned.
pub open spec fn is_planned(records: Seq<PlannedRecord>, i: int, k: int) -> bool {
    exists|j: int|
        0 <= j < records.len() && (#[trigger] records[j]).source == i && records[j].frame == k
}

spec fn replay_inv(
    segments: Seq<SegmentImage>,
    from_seq: u64,
    tick: u64,
    st: ReplayState,
    i: int,
    k: int,
) -> bool {
    &&& forall|j: int|
        0 <= j < st.records.len() ==> soundly_planned(segments, from_seq, #[trigger] st.records[j])
    &&& in_log_order(st.records)
    &&& forall|j: int|
        0 <= j < st.records.len() ==> (#[trigger] st.records[j]).source < i || st.records[j].source
            == i && st.records[j].frame < k
    &&& fenced(segments, i, k, st.max_view)
    &&& forall|view: u64| #[trigger] fenced(segments, i, k, view) ==> st.max_view <= view
    &&& forall|a: int, b: int|
        (a < i || a == i && b < k) && #[trigger] due(segments, from_seq, a, b) ==> is_planned(
            st.records,
            a,
            b,
        )
    &&& plan_laws::ticks_from(st.records, tick)
    &&& st.expected_tick == if st.records.len() > 0 {
        st.records.last().tick_after + 1
    } else {
        tick as int
    }
    &&& st.records.len() > 0 ==> st.last_seq == st.records.last().seq
}

proof fn lemma_replay_frames(
    segments: Seq<SegmentImage>,
    st: ReplayState,
    from_seq: u64,
    world: WorldShape,
    codecs: Codecs,
    i: int,
    k: int,
)
    requires
        segments.len() <= usize::MAX,
        0 <= i < segments.len(),
        0 <= k <= segments[i].frames@.len(),
        replay_inv(segments, from_seq, world.tick, st, i, k),
        plan::replay_frames(st, segments[i], from_seq, world, codecs, i as usize, k) is Ok,
    ensures
        replay_inv(
            segments,
            from_seq,
            world.tick,
            plan::replay_frames(st, segments[i], from_seq, world, codecs, i as usize, k)->Ok_0,
            i + 1,
            0,
        ),
    decreases segments[i].frames@.len() - k,
{
    if k < segments[i].frames@.len() {
        let frames = segments[i].frames;
        assert(frames.len() == frames@.len());
        let f = frames@[k];
        let next = plan::replay_frame(
            st,
            f,
            from_seq,
            world,
            codecs,
            i as usize,
            k as usize,
        )->Ok_0;
        let view = view_at(segments, i, k);
        assert(fenced(segments, i, k + 1, next.max_view));
        assert forall|v: u64| #[trigger] fenced(segments, i, k + 1, v) implies next.max_view
            <= v by {
            assert(fenced(segments, i, k, v));
            assert(view_at(segments, i, k) <= v);
        }
        assert forall|a: int, b: int|
            (a < i || a == i && b < k + 1) && #[trigger] due(segments, from_seq, a, b) implies
            is_planned(next.records, a, b) by {
            if a == i && b == k {
                assert(st.max_view <= view);
                let j = next.records.len() - 1;
                assert(next.records[j].source == a && next.records[j].frame == b);
            } else {
                assert(is_planned(st.records, a, b));
                let j = choose|j: int|
                    0 <= j < st.records.len() && (#[trigger] st.records[j]).source == a
                        && st.records[j].frame == b;
                assert(next.records[j] == st.records[j]);
            }
        }
        if next.records != st.records {
            assert(fenced(segments, i, k, view));
            let r = next.records.last();
            assert(next.records == st.records.push(r));
            assert(soundly_planned(segments, from_seq, r));
        }
        assert(replay_inv(segments, from_seq, world.tick, next, i, k + 1));
        lemma_replay_frames(segments, next, from_seq, world, codecs, i, k + 1);
    } else {
        assert forall|v: u64| #[trigger] fenced(segments, i + 1, 0, v) implies st.max_view
            <= v by {
            assert(fenced(segments, i, k, v));
        }
    }
}

proof fn lemma_replay_segments(
    segments: Seq<SegmentImage>,
    st: ReplayState,
    from_seq: u64,
    world: WorldShape,
    codecs: Codecs,
    i: int,
)
    requires
        segments.len() <= usize::MAX,
        0 <= i <= segments.len(),
        replay_inv(segments, from_seq, world.tick, st, i, 0),
        plan::replay_segments(st, segments, from_seq, world, codecs, i) is Ok,
    ensures
        replay_inv(
            segments,
            from_seq,
            world.tick,
            plan::replay_segments(st, segments, from_seq, world, codecs, i)->Ok_0,
            segments.len() as int,
            0,
        ),
    decreases segments.len() - i,
{
    if i < segments.len() {
        let st = ReplayState { bound: false, ..st };
        lemma_replay_frames(segments, st, from_seq, world, codecs, i, 0);
        let next = plan::replay_frames(
            st,
            segments[i],
            from_seq,
            world,
            codecs,
            i as usize,
            0,
        )->Ok_0;
        lemma_replay_segments(segments, next, from_seq, world, codecs, i + 1);
    }
}

/// A replay applies, in log order, exactly the records of the log that are not
/// before the sequence number asked for and not from a deposed leader, at
/// commit ticks that only grow. It reports the last of them, and the highest
/// view that a frame of the log carries, or 0 for a log without frames.
pub proof fn law_replay_applies_current_records(
    segments: Seq<SegmentImage>,
    from_seq: u64,
    world: WorldShape,
    codecs: Codecs,
)
    requires
        segments.len() <= usize::MAX,
        plan::replay_plan(segments, from_seq, world, codecs) is Ok,
    ensures
        ({
            let plan: PlanView = plan::replay_plan(segments, from_seq, world, codecs)->Ok_0;
            &&& forall|j: int|
                0 <= j < plan.records.len() ==> soundly_planned(
                    segments,
                    from_seq,
                    #[trigger] plan.records[j],
                )
            &&& forall|i: int, k: int| #[trigger]
                due(segments, from_seq, i, k) ==> is_planned(plan.records, i, k)
            &&& in_log_order(plan.records)
            &&& plan_laws::ticks_from(plan.records, world.tick)
            &&& plan.records.len() > 0 ==> plan.last_seq == plan.records.last().seq
            &&& plan.records.len() == 0 ==> plan.last_seq == if from_seq > 0 {
                from_seq - 1
            } else {
                0
            }
            &&& fenced(segments, segments.len() as int, 0, plan.max_view)
            &&& plan.max_view == 0 || carried(segments, plan.max_view)
        }),
{
    let start = ReplayState {
        records: Seq::empty(),
        remaps: Seq::empty(),
        bound: false,
        last_seq: if from_seq > 0 {
            (from_seq - 1) as u64
        } else {
            0
        },
        max_view: 0,
        expected_tick: world.tick,
    };
    assert(fenced(segments, 0, 0, 0));
    assert(replay_inv(segments, from_seq, world.tick, start, 0, 0));
    lemma_replay_segments(segments, start, from_seq, world, codecs, 0);
    lemma_empty_replay(segments, start, from_seq, world, codecs, 0);
    let end = plan::replay_segments(start, segments, from_seq, world, codecs, 0)->Ok_0;
    let plan = plan::replay_plan(segments, from_seq, world, codecs)->Ok_0;
    assert(plan.records == end.records && plan.max_view == end.max_view);
    assert forall|i: int, k: int| #[trigger] due(segments, from_seq, i, k) implies is_planned(
        plan.records,
        i,
        k,
    ) by {
        assert(is_planned(end.records, i, k));
    }
    if plan.max_view > 0 && !carried(segments, plan.max_view) {
        let lower = (plan.max_view - 1) as u64;
        assert(fenced(segments, segments.len() as int, 0, lower)) by {
            assert forall|a: int, b: int|
                #![trigger view_at(segments, a, b)]
                0 <= a < segments.len() && 0 <= b < segments[a].frames@.len() implies view_at(
                segments,
                a,
                b,
            ) <= lower by {
                assert(fenced(segments, segments.len() as int, 0, plan.max_view));
                assert(view_at(segments, a, b) != plan.max_view);
            }
        }
    }
}

proof fn lemma_empty_frames(
    segment: SegmentImage,
    st: ReplayState,
    from_seq: u64,
    world: WorldShape,
    codecs: Codecs,
    source: usize,
    k: int,
)
    ensures
        plan::replay_frames(st, segment, from_seq, world, codecs, source, k) matches Ok(end) ==> (
        end.records.len() >= st.records.len() && (end.records.len() == st.records.len()
            ==> end.last_seq == st.last_seq)),
    decreases segment.frames@.len() - k,
{
    if 0 <= k < segment.frames@.len() {
        if let Ok(next) = plan::replay_frame(
            st,
            segment.frames@[k],
            from_seq,
            world,
            codecs,
            source,
            k as usize,
        ) {
            lemma_empty_frames(segment, next, from_seq, world, codecs, source, k + 1);
        }
    }
}

proof fn lemma_empty_replay(
    segments: Seq<SegmentImage>,
    st: ReplayState,
    from_seq: u64,
    world: WorldShape,
    codecs: Codecs,
    i: int,
)
    ensures
        plan::replay_segments(st, segments, from_seq, world, codecs, i) matches Ok(end) ==> (
        end.records.len() >= st.records.len() && (end.records.len() == st.records.len()
            ==> end.last_seq == st.last_seq)),
    decreases segments.len() - i,
{
    if 0 <= i < segments.len() {
        let st = ReplayState { bound: false, ..st };
        lemma_empty_frames(segments[i], st, from_seq, world, codecs, i as usize, 0);
        if let Ok(next) = plan::replay_frames(
            st,
            segments[i],
            from_seq,
            world,
            codecs,
            i as usize,
            0,
        ) {
            lemma_empty_replay(segments, next, from_seq, world, codecs, i + 1);
        }
    }
}

} // verus!
