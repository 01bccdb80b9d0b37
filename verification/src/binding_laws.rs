//! Laws on which logs can be replayed, and on the bindings that their records
//! are replayed with.
use crate::apply;
use crate::apply::{ApplyComponent, Codecs, WorldShape};
use crate::change_laws;
use crate::error::WalError;
use crate::frame::DecodedFrame;
use crate::plan;
use crate::plan::{PlanView, PlannedRecord, ReplayState};
use crate::record::{ComponentId, WalEntry, WalRecord};
use crate::recovery;
use crate::replay_laws;
use crate::segment::SegmentImage;
use vstd::prelude::*;

verus! {

/// A log with what a destination replays it against.
pub struct Replay {
    pub segments: Seq<SegmentImage>,
    pub from_seq: u64,
    pub world: WorldShape,
    pub codecs: Codecs,
}

impl Replay {
    pub open spec fn plan(self) -> Result<PlanView, WalError> {
        plan::replay_plan(self.segments, self.from_seq, self.world, self.codecs)
    }

    pub open spec fn frame(self, i: int, k: int) -> DecodedFrame {
        self.segments[i].frames@[k]
    }

    pub open spec fn record(self, i: int, k: int) -> WalRecord {
        self.frame(i, k).spec_decode()->Ok_0->Mutations_0
    }

    /// Frame `k` of segment `i` holds a record that is to be replayed: not
    /// before the sequence asked for, and not from a deposed leader.
    pub open spec fn is_due(self, i: int, k: int) -> bool {
        replay_laws::due(self.segments, self.from_seq, i, k)
    }

    /// The binding in force at frame `k` of segment `i`: that of the last schema
    /// before it in the same segment. Without one, codec ids stand for
    /// themselves.
    pub open spec fn in_force(self, i: int, k: int) -> Result<
        Map<ComponentId, ApplyComponent>,
        WalError,
    >
        decreases k,
    {
        if k <= 0 {
            apply::apply_remap(None, self.world, self.codecs)
        } else {
            match self.frame(i, k - 1).spec_decode() {
                Ok(WalEntry::Schema(schema)) => apply::apply_remap(
                    Some((schema.components@.len() as usize, self.frame(i, k - 1).binding)),
                    self.world,
                    self.codecs,
                ),
                _ => self.in_force(i, k - 1),
            }
        }
    }

    pub open spec fn is_before(self, a: int, b: int, i: int, k: int) -> bool {
        &&& 0 <= a < self.segments.len()
        &&& 0 <= b < self.segments[a].frames@.len()
        &&& a < i || a == i && b < k
    }

    /// The record commits after those replayed before it, and no earlier than
    /// the world's tick.
    pub open spec fn is_in_time(self, i: int, k: int) -> bool {
        let tick = self.record(i, k).tick_after;
        &&& self.world.tick <= tick < u64::MAX
        &&& forall|a: int, b: int|
            self.is_before(a, b, i, k) && #[trigger] self.is_due(a, b) ==> self.record(
                a,
                b,
            ).tick_after < tick
    }

    /// Frame `k` of segment `i` can be replayed or passed over.
    pub open spec fn is_frame(self, i: int, k: int) -> bool {
        match self.frame(i, k).spec_decode() {
            Err(_) => false,
            Ok(WalEntry::Schema(_)) => self.in_force(i, k + 1) is Ok,
            Ok(WalEntry::Checkpoint { .. }) => true,
            Ok(WalEntry::Mutations(record)) => self.is_due(i, k) ==> {
                &&& self.in_force(i, k) is Ok
                &&& forall|m: int|
                    0 <= m < record.mutations@.len() ==> change_laws::all_bound(
                        #[trigger] record.mutations@[m],
                        self.in_force(i, k)->Ok_0,
                    )
                &&& self.is_in_time(i, k)
            },
        }
    }

    /// Segment `i` is of this format, ends with nothing but a frame cut short,
    /// and all its frames can be replayed or passed over.
    pub open spec fn is_segment(self, i: int) -> bool {
        &&& self.segments[i].spec_magic_error() is None
        &&& recovery::tail_error(self.segments[i]) is None
        &&& forall|k: int|
            0 <= k < self.segments[i].frames@.len() ==> #[trigger] self.is_frame(i, k)
    }

    /// The planned record is applied with the binding in force where it stands.
    pub open spec fn is_bound_well(
        self,
        r: PlannedRecord,
        remaps: Seq<Map<ComponentId, ApplyComponent>>,
    ) -> bool {
        &&& r.remap < remaps.len()
        &&& self.in_force(r.source as int, r.frame as int) == Ok::<
            Map<ComponentId, ApplyComponent>,
            WalError,
        >(remaps[r.remap as int])
    }

    spec fn holds_at(self, i: int, k: int, st: ReplayState) -> bool {
        &&& replay_laws::fenced(self.segments, i, k, st.max_view)
        &&& forall|v: u64| #[trigger]
            replay_laws::fenced(self.segments, i, k, v) ==> st.max_view <= v
        &&& st.bound ==> st.remaps.len() > 0 && self.in_force(i, k) == Ok::<
            Map<ComponentId, ApplyComponent>,
            WalError,
        >(st.remaps.last())
        &&& !st.bound ==> self.in_force(i, k) == apply::apply_remap(
            None,
            self.world,
            self.codecs,
        )
        &&& st.remaps.len() <= usize::MAX
        &&& forall|j: int|
            0 <= j < st.records.len() ==> self.is_bound_well(#[trigger] st.records[j], st.remaps)
        &&& self.world.tick <= st.expected_tick
        &&& forall|a: int, b: int|
            self.is_before(a, b, i, k) && #[trigger] self.is_due(a, b) ==> self.record(
                a,
                b,
            ).tick_after < st.expected_tick
        &&& st.expected_tick == self.world.tick || exists|a: int, b: int|
            self.is_before(a, b, i, k) && #[trigger] self.is_due(a, b) && self.record(
                a,
                b,
            ).tick_after + 1 == st.expected_tick
    }

    proof fn lemma_frame(self, i: int, k: int, st: ReplayState)
        requires
            0 <= i < self.segments.len() <= usize::MAX,
            0 <= k < self.segments[i].frames@.len(),
            self.holds_at(i, k, st),
            st.remaps.len() < usize::MAX,
        ensures
            ({
                let r = plan::replay_frame(
                    st,
                    self.frame(i, k),
                    self.from_seq,
                    self.world,
                    self.codecs,
                    i as usize,
                    k as usize,
                );
                &&& r is Ok <==> self.is_frame(i, k)
                &&& r matches Ok(next) ==> self.holds_at(i, k + 1, next) && next.remaps.len()
                    <= st.remaps.len() + 1
            }),
    {
        let frames = self.segments[i].frames;
        assert(frames.len() == frames@.len());
        let f = self.frame(i, k);
        let view = replay_laws::view_at(self.segments, i, k);
        let r = plan::replay_frame(
            st,
            f,
            self.from_seq,
            self.world,
            self.codecs,
            i as usize,
            k as usize,
        );
        if let Ok(WalEntry::Mutations(record)) = f.spec_decode() {
            assert(replay_laws::fenced(self.segments, i, k, view) <==> st.max_view <= view) by {
                if st.max_view <= view {
                    assert forall|a: int, b: int|
                        #![trigger replay_laws::view_at(self.segments, a, b)]
                        self.is_before(a, b, i, k) implies replay_laws::view_at(
                        self.segments,
                        a,
                        b,
                    ) <= view by {}
                }
            }
            assert(self.is_due(i, k) <==> st.max_view <= view && record.seq >= self.from_seq);
            if self.is_due(i, k) {
                assert(self.is_in_time(i, k) <==> st.expected_tick <= record.tick_after < u64::MAX)
                by {
                    if self.is_in_time(i, k) && st.expected_tick != self.world.tick {
                        let (a, b) = choose|a: int, b: int|
                            self.is_before(a, b, i, k) && #[trigger] self.is_due(a, b)
                                && self.record(a, b).tick_after + 1 == st.expected_tick;
                        assert(self.record(a, b).tick_after < record.tick_after);
                    }
                }
                if let Ok(m) = self.in_force(i, k) {
                    change_laws::lemma_passes(record.mutations@, 0, m, self.codecs);
                    let remaps = if st.bound {
                        st.remaps
                    } else {
                        st.remaps.push(m)
                    };
                    assert(remaps.last() == m);
                }
            }
        }
        if let Ok(next) = r {
            self.lemma_moves_on(i, k, st, next);
        }
    }

    proof fn lemma_moves_on(self, i: int, k: int, st: ReplayState, next: ReplayState)
        requires
            0 <= i < self.segments.len() <= usize::MAX,
            0 <= k < self.segments[i].frames@.len(),
            self.holds_at(i, k, st),
            st.remaps.len() < usize::MAX,
            plan::replay_frame(
                st,
                self.frame(i, k),
                self.from_seq,
                self.world,
                self.codecs,
                i as usize,
                k as usize,
            ) == Ok::<ReplayState, WalError>(next),
            self.is_due(i, k) <==> next.records.len() == st.records.len() + 1,
            self.is_due(i, k) ==> st.expected_tick <= self.record(i, k).tick_after,
        ensures
            self.holds_at(i, k + 1, next),
            next.remaps.len() <= st.remaps.len() + 1,
    {
        let frames = self.segments[i].frames;
        assert(frames.len() == frames@.len());
        let f = self.frame(i, k);
        let view = replay_laws::view_at(self.segments, i, k);
        assert(self.is_before(i, k, i, k + 1));
        assert(replay_laws::fenced(self.segments, i, k + 1, next.max_view));
        assert forall|v: u64| #[trigger]
            replay_laws::fenced(self.segments, i, k + 1, v) implies next.max_view <= v by {
            assert(replay_laws::view_at(self.segments, i, k) <= v);
            assert(replay_laws::fenced(self.segments, i, k, v));
        }
        assert forall|a: int, b: int|
            self.is_before(a, b, i, k + 1) && #[trigger] self.is_due(a, b) implies self.record(
            a,
            b,
        ).tick_after < next.expected_tick by {
            if !(a == i && b == k) {
                assert(self.is_before(a, b, i, k));
            }
        }
        if next.expected_tick != self.world.tick {
            if self.is_due(i, k) {
                assert(self.record(i, k).tick_after + 1 == next.expected_tick);
            } else {
                let (a, b) = choose|a: int, b: int|
                    self.is_before(a, b, i, k) && #[trigger] self.is_due(a, b) && self.record(
                        a,
                        b,
                    ).tick_after + 1 == st.expected_tick;
                assert(self.is_before(a, b, i, k + 1) && self.is_due(a, b));
            }
        }
        assert forall|j: int| 0 <= j < next.records.len() implies self.is_bound_well(
            #[trigger] next.records[j],
            next.remaps,
        ) by {
            if j < st.records.len() {
                assert(next.records[j] == st.records[j]);
                assert(self.is_bound_well(st.records[j], st.remaps));
                let at = st.records[j].remap as int;
                assert(next.remaps[at] == st.remaps[at]);
            }
        }
    }

    proof fn lemma_frames(self, i: int, k: int, st: ReplayState)
        requires
            0 <= i < self.segments.len() <= usize::MAX,
            0 <= k <= self.segments[i].frames@.len(),
            self.holds_at(i, k, st),
            st.remaps.len() + (self.segments[i].frames@.len() - k) <= usize::MAX,
        ensures
            ({
                let n = self.segments[i].frames@.len() as int;
                let r = plan::replay_frames(
                    st,
                    self.segments[i],
                    self.from_seq,
                    self.world,
                    self.codecs,
                    i as usize,
                    k,
                );
                &&& r is Ok <==> recovery::tail_error(self.segments[i]) is None && forall|l: int|
                    k <= l < n ==> #[trigger] self.is_frame(i, l)
                &&& r matches Ok(next) ==> self.holds_at(i, n, next) && next.remaps.len()
                    <= st.remaps.len() + n - k
            }),
        decreases self.segments[i].frames@.len() - k,
    {
        if k < self.segments[i].frames@.len() {
            self.lemma_frame(i, k, st);
            if let Ok(next) = plan::replay_frame(
                st,
                self.frame(i, k),
                self.from_seq,
                self.world,
                self.codecs,
                i as usize,
                k as usize,
            ) {
                self.lemma_frames(i, k + 1, next);
            }
        }
    }

    proof fn lemma_next_segment(self, i: int, st: ReplayState)
        requires
            0 <= i < self.segments.len(),
            self.holds_at(i, self.segments[i].frames@.len() as int, st),
        ensures
            self.holds_at(i + 1, 0, ReplayState { bound: false, ..st }),
    {
        let n = self.segments[i].frames@.len() as int;
        assert forall|v: u64| #[trigger]
            replay_laws::fenced(self.segments, i + 1, 0, v) implies st.max_view <= v by {
            assert(replay_laws::fenced(self.segments, i, n, v));
        }
        assert(replay_laws::fenced(self.segments, i + 1, 0, st.max_view));
        assert forall|a: int, b: int|
            self.is_before(a, b, i + 1, 0) && #[trigger] self.is_due(a, b) implies self.record(
            a,
            b,
        ).tick_after < st.expected_tick by {
            assert(self.is_before(a, b, i, n));
        }
        if st.expected_tick != self.world.tick {
            let (a, b) = choose|a: int, b: int|
                self.is_before(a, b, i, n) && #[trigger] self.is_due(a, b) && self.record(
                    a,
                    b,
                ).tick_after + 1 == st.expected_tick;
            assert(self.is_before(a, b, i + 1, 0) && self.is_due(a, b));
        }
    }

    /// The number of frames from segment `i` on.
    pub open spec fn frames_from(self, i: int) -> int
        decreases self.segments.len() - i,
    {
        if 0 <= i < self.segments.len() {
            self.segments[i].frames@.len() + self.frames_from(i + 1)
        } else {
            0
        }
    }

    proof fn lemma_frames_from(self, i: int)
        ensures
            self.frames_from(i) >= 0,
        decreases self.segments.len() - i,
    {
        if 0 <= i < self.segments.len() {
            self.lemma_frames_from(i + 1);
        }
    }

    proof fn lemma_segments(self, i: int, st: ReplayState)
        requires
            0 <= i <= self.segments.len() <= usize::MAX,
            self.holds_at(i, 0, ReplayState { bound: false, ..st }),
            st.remaps.len() + self.frames_from(i) <= usize::MAX,
        ensures
            ({
                let r = plan::replay_segments(
                    st,
                    self.segments,
                    self.from_seq,
                    self.world,
                    self.codecs,
                    i,
                );
                let n = self.segments.len() as int;
                &&& r is Ok <==> forall|l: int| i <= l < n ==> #[trigger] self.is_segment(l)
                &&& r matches Ok(next) ==> self.holds_at(
                    n,
                    0,
                    ReplayState { bound: false, ..next },
                )
            }),
        decreases self.segments.len() - i,
    {
        if i < self.segments.len() {
            let begin = ReplayState { bound: false, ..st };
            self.lemma_frames_from(i + 1);
            self.lemma_frames(i, 0, begin);
            let r = plan::replay_frames(
                begin,
                self.segments[i],
                self.from_seq,
                self.world,
                self.codecs,
                i as usize,
                0,
            );
            if r is Ok && self.segments[i].spec_magic_error() is None {
                let next = r->Ok_0;
                self.lemma_next_segment(i, next);
                self.lemma_segments(i + 1, next);
            } else {
                assert(!self.is_segment(i));
            }
        }
    }
}

/// A log is replayed exactly where it can be as a whole: every segment is of
/// this format and decodes, every schema binds, and each record that is due
/// commits in time and refers to nothing that is not bound. Each is replayed
/// with the binding in force where it stands in its own segment.
pub proof fn law_replay_takes_whole_logs(p: Replay)
    requires
        p.segments.len() <= usize::MAX,
        p.frames_from(0) <= usize::MAX,
    ensures
        p.plan() is Ok <==> forall|i: int|
            0 <= i < p.segments.len() ==> #[trigger] p.is_segment(i),
        p.plan() matches Ok(plan) ==> forall|j: int|
            0 <= j < plan.records.len() ==> p.is_bound_well(
                #[trigger] plan.records[j],
                plan.remaps,
            ),
{
    let start = ReplayState {
        records: Seq::empty(),
        remaps: Seq::empty(),
        bound: false,
        last_seq: if p.from_seq > 0 {
            (p.from_seq - 1) as u64
        } else {
            0
        },
        max_view: 0,
        expected_tick: p.world.tick,
    };
    assert(replay_laws::fenced(p.segments, 0, 0, 0));
    assert(p.holds_at(0, 0, start));
    p.lemma_segments(0, start);
    if let Ok(plan) = p.plan() {
        let end = plan::replay_segments(start, p.segments, p.from_seq, p.world, p.codecs, 0)->Ok_0;
        let last = ReplayState { bound: false, ..end };
        assert(plan.records == last.records && plan.remaps == last.remaps);
        assert forall|j: int| 0 <= j < plan.records.len() implies p.is_bound_well(
            #[trigger] plan.records[j],
            plan.remaps,
        ) by {
            assert(p.is_bound_well(last.records[j], last.remaps));
        }
    }
}

} // verus!
