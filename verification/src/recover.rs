//! Recovery of a world: a baseline, then the log tail on top of it.
use crate::apply::{Codecs, WorldShape};
use crate::error::WalError;
use crate::plan;
use crate::plan::{PlanView, ValidatedRange};
use crate::replay_laws;
use crate::segment::SegmentImage;
use crate::wal::Wal;
use vstd::prelude::*;

verus! {

/// Errors during world recovery.
#[derive(Clone, Debug, PartialEq, Eq)]
pub enum RecoverError {
    /// The baseline could not be restored, as its store describes it.
    Lsm(String),
    Wal(WalError),
}

/// The outcome of restoring a baseline, where there is one: the sequence up to
/// which the newest run covers the log. That sequence, not a checkpoint's, is
/// where replay starts: a checkpoint may acknowledge a later one when it had
/// nothing to persist.
pub enum Baseline {
    /// No manifest exists yet.
    Absent,
    Restored { flush_seq: u64 },
    Failed(String),
}

/// What recovery comes to.
pub open spec fn recovered_world(
    baseline: Baseline,
    segments: Seq<SegmentImage>,
    world: WorldShape,
    codecs: Codecs,
) -> Result<PlanView, RecoverError> {
    match baseline {
        Baseline::Failed(e) => Err(RecoverError::Lsm(e)),
        _ => match plan::replay_plan(
            segments,
            match baseline {
                Baseline::Restored { flush_seq } => flush_seq,
                _ => 0,
            },
            world,
            codecs,
        ) {
            Ok(plan) => Ok(plan),
            Err(e) => Err(RecoverError::Wal(e)),
        },
    }
}

/// Recovery replays exactly what the baseline lacks: without one the whole log,
/// otherwise the records from the sequence on up to which the baseline covers
/// it, and none before. A baseline that failed is not replayed over.
pub proof fn law_recovery_replays_what_baseline_lacks(
    baseline: Baseline,
    segments: Seq<SegmentImage>,
    world: WorldShape,
    codecs: Codecs,
    floor: u64,
)
    requires
        segments.len() <= usize::MAX,
        match baseline {
            Baseline::Absent => floor == 0,
            Baseline::Restored { flush_seq } => floor == flush_seq,
            Baseline::Failed(_) => true,
        },
    ensures
        match recovered_world(baseline, segments, world, codecs) {
            Ok(plan) => {
                &&& !(baseline is Failed)
                &&& forall|j: int|
                    0 <= j < plan.records.len() ==> replay_laws::soundly_planned(
                        segments,
                        floor,
                        #[trigger] plan.records[j],
                    )
                &&& forall|i: int, k: int| #[trigger]
                    replay_laws::due(segments, floor, i, k) ==> replay_laws::is_planned(
                        plan.records,
                        i,
                        k,
                    )
            },
            Err(RecoverError::Lsm(e)) => baseline == Baseline::Failed(e),
            Err(RecoverError::Wal(e)) => !(baseline is Failed) && plan::replay_plan(
                segments,
                floor,
                world,
                codecs,
            ) == Err::<PlanView, WalError>(e),
        },
{
    if !(baseline is Failed) && plan::replay_plan(segments, floor, world, codecs) is Ok {
        replay_laws::law_replay_applies_current_records(segments, floor, world, codecs);
    }
}

/// What recovery has to replay on top of the baseline, from the log's segment
/// files ascending. Without a baseline the world is empty and the whole log is
/// replayed. In `world` every component that a codec handles is registered.
pub fn recover_world(
    baseline: Baseline,
    wal: &Wal,
    segments: &Vec<SegmentImage>,
    world: &WorldShape,
    codecs: &Codecs,
) -> (r: Result<ValidatedRange, RecoverError>)
    ensures
        match baseline {
            Baseline::Failed(e) => r == Err::<ValidatedRange, RecoverError>(RecoverError::Lsm(e)),
            _ => match plan::replay_plan(
                segments@,
                match baseline {
                    Baseline::Restored { flush_seq } => flush_seq,
                    _ => 0,
                },
                *world,
                *codecs,
            ) {
                Ok(plan) => r matches Ok(p) && p@ == plan,
                Err(e) => r == Err::<ValidatedRange, RecoverError>(RecoverError::Wal(e)),
            },
        },
        match recovered_world(baseline, segments@, *world, *codecs) {
            Ok(plan) => r matches Ok(p) && p@ == plan,
            Err(e) => r == Err::<ValidatedRange, RecoverError>(e),
        },
{
    let floor: u64 = match baseline {
        Baseline::Failed(e) => {
            return Err(RecoverError::Lsm(e));
        },
        Baseline::Restored { flush_seq } => flush_seq,
        Baseline::Absent => 0,
    };
    match wal.replay_from(floor, segments, world, codecs) {
        Ok(plan) => Ok(plan),
        Err(e) => Err(RecoverError::Wal(e)),
    }
}

} // verus!
