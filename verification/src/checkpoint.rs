//! The checkpoint that a log asks for: flush, compact, save indexes, then
//! acknowledge. The host performs each action and reports how it went.
use crate::error::WalError;
use crate::wal::{Wal, WalView};
use vstd::prelude::*;

verus! {

/// What the store reports after a flush or a compaction: how many runs its
/// youngest level holds, and how many of them make compaction due.
#[derive(Clone, Copy, Debug, PartialEq, Eq, Structural)]
pub struct RunCount {
    pub runs: usize,
    pub trigger: usize,
}

#[derive(Clone, Debug, PartialEq, Eq)]
pub enum CheckpointError {
    /// The flush or its sequence range failed, as the store describes it.
    Flush(String),
    Compact(String),
    Wal(WalError),
}

/// What the host does next.
#[derive(Clone, Copy, Debug, PartialEq, Eq, Structural)]
pub enum CheckpointAction {
    /// Flush dirty pages for the sequences from `lo` up to `hi`.
    Flush { lo: u64, hi: u64 },
    /// Compact once.
    Compact,
    /// Bring registered index `index` up to date and save it.
    SaveIndex { index: usize },
    /// Acknowledge the flush in the log.
    Acknowledge { flush_seq: u64 },
    /// The checkpoint is complete.
    Done,
}

/// How the last action went.
pub enum CheckpointEvent {
    Flushed(Result<RunCount, String>),
    /// `None` if there was nothing to compact.
    Compacted(Result<Option<RunCount>, String>),
    /// A failure to save an index is not fatal: it can be rebuilt.
    IndexSaved(bool),
    Acknowledged(Result<(), WalError>),
}

#[derive(Clone, Copy, Debug, PartialEq, Eq, Structural)]
pub enum Stage {
    Idle,
    Flushing { flush_seq: u64 },
    Compacting { flush_seq: u64 },
    Saving { flush_seq: u64, index: usize },
    Acknowledging { flush_seq: u64 },
}

#[verifier::ext_equal]
pub struct CheckpointView {
    pub indexes: Seq<Seq<char>>,
    pub stage: Stage,
}

/// The flush that a checkpoint of the log starts with: of the sequences since
/// the last acknowledged one.
pub open spec fn flush_of(w: WalView) -> CheckpointAction {
    CheckpointAction::Flush {
        lo: match w.last_checkpoint_seq {
            Some(seq) => seq,
            None => 0,
        },
        hi: w.next_seq,
    }
}

impl CheckpointView {
    /// With one more index to save.
    pub open spec fn registered(self, path: Seq<char>) -> CheckpointView {
        CheckpointView { indexes: self.indexes.push(path), ..self }
    }

    /// A checkpoint of everything that the log holds.
    pub open spec fn started(self, w: WalView) -> CheckpointView {
        CheckpointView { stage: Stage::Flushing { flush_seq: w.next_seq }, ..self }
    }

    /// Saves index `index`, or acknowledges when all are saved.
    pub open spec fn save_from(self, flush_seq: u64, index: usize) -> (
        CheckpointView,
        CheckpointAction,
    ) {
        if index < self.indexes.len() {
            (
                CheckpointView { stage: Stage::Saving { flush_seq, index }, ..self },
                CheckpointAction::SaveIndex { index },
            )
        } else {
            (
                CheckpointView { stage: Stage::Acknowledging { flush_seq }, ..self },
                CheckpointAction::Acknowledge { flush_seq },
            )
        }
    }

    /// Compacts while the youngest runs reach the trigger.
    pub open spec fn compact_while(self, flush_seq: u64, count: RunCount) -> (
        CheckpointView,
        CheckpointAction,
    ) {
        if count.runs >= count.trigger {
            (
                CheckpointView { stage: Stage::Compacting { flush_seq }, ..self },
                CheckpointAction::Compact,
            )
        } else {
            self.save_from(flush_seq, 0)
        }
    }

    pub open spec fn abandoned(self) -> CheckpointView {
        CheckpointView { stage: Stage::Idle, ..self }
    }

    /// The event answers the action that is under way.
    pub open spec fn awaits(self, event: CheckpointEvent) -> bool {
        match self.stage {
            Stage::Idle => false,
            Stage::Flushing { .. } => event is Flushed,
            Stage::Compacting { .. } => event is Compacted,
            Stage::Saving { .. } => event is IndexSaved,
            Stage::Acknowledging { .. } => event is Acknowledged,
        }
    }

    /// The next action after `event`. Any failure but that of an index abandons
    /// the checkpoint without acknowledging it.
    pub open spec fn stepped(self, event: CheckpointEvent) -> (
        CheckpointView,
        Result<CheckpointAction, CheckpointError>,
    ) {
        match (self.stage, event) {
            (Stage::Flushing { flush_seq }, CheckpointEvent::Flushed(Ok(count))) => {
                let (next, action) = self.compact_while(flush_seq, count);
                (next, Ok(action))
            },
            (Stage::Flushing { .. }, CheckpointEvent::Flushed(Err(e))) => (
                self.abandoned(),
                Err(CheckpointError::Flush(e)),
            ),
            (Stage::Compacting { flush_seq }, CheckpointEvent::Compacted(Ok(Some(count)))) => {
                let (next, action) = self.compact_while(flush_seq, count);
                (next, Ok(action))
            },
            (Stage::Compacting { flush_seq }, CheckpointEvent::Compacted(Ok(None))) => {
                let (next, action) = self.save_from(flush_seq, 0);
                (next, Ok(action))
            },
            (Stage::Compacting { .. }, CheckpointEvent::Compacted(Err(e))) => (
                self.abandoned(),
                Err(CheckpointError::Compact(e)),
            ),
            (Stage::Saving { flush_seq, index }, CheckpointEvent::IndexSaved(_)) => {
                let (next, action) = self.save_from(flush_seq, (index + 1) as usize);
                (next, Ok(action))
            },
            (Stage::Acknowledging { .. }, CheckpointEvent::Acknowledged(Ok(_))) => (
                self.abandoned(),
                Ok(CheckpointAction::Done),
            ),
            (Stage::Acknowledging { .. }, CheckpointEvent::Acknowledged(Err(e))) => (
                self.abandoned(),
                Err(CheckpointError::Wal(e)),
            ),
            _ => (self, Ok(CheckpointAction::Done)),
        }
    }

    pub open spec fn wf(self) -> bool {
        &&& self.indexes.len() <= usize::MAX
        &&& self.stage matches Stage::Saving { index, .. } ==> index < self.indexes.len()
    }
}

/// Default checkpoint: flush of dirty pages, compaction while it is due, then
/// the registered indexes.
pub struct AutoCheckpoint {
    indexes: Vec<String>,
    stage: Stage,
}

pub open spec fn path_views(paths: Seq<String>) -> Seq<Seq<char>> {
    Seq::new(paths.len(), |i: int| paths[i]@)
}

impl View for AutoCheckpoint {
    type V = CheckpointView;

    closed spec fn view(&self) -> CheckpointView {
        CheckpointView { indexes: path_views(self.indexes@), stage: self.stage }
    }
}

impl AutoCheckpoint {
    pub fn new() -> (c: AutoCheckpoint)
        ensures
            c@ == (CheckpointView { indexes: Seq::empty(), stage: Stage::Idle }),
            c@.wf(),
    {
        let c = AutoCheckpoint { indexes: Vec::new(), stage: Stage::Idle };
        assert(c@.indexes =~= Seq::empty());
        c
    }

    /// Registers an index to be saved at `path` on each checkpoint. A failure
    /// to save it does not fail the checkpoint: the baseline and the log are
    /// the source of truth.
    pub fn register_index(&mut self, path: String)
        requires
            old(self)@.wf(),
            old(self)@.indexes.len() < usize::MAX,
        ensures
            final(self)@ == (CheckpointView {
                indexes: old(self)@.indexes.push(path@),
                ..old(self)@
            }),
            final(self)@ == old(self)@.registered(path@),
            final(self)@.wf(),
    {
        let ghost before = self.indexes@;
        self.indexes.push(path);
        assert(path_views(self.indexes@) =~= path_views(before).push(path@));
    }

    /// The path that registered index `index` is saved at.
    pub fn index_path(&self, index: usize) -> (path: Option<&String>)
        ensures
            match path {
                Some(p) => index < self@.indexes.len() && p@ == self@.indexes[index as int],
                None => index >= self@.indexes.len(),
            },
    {
        if index < self.indexes.len() {
            Some(&self.indexes[index])
        } else {
            None
        }
    }

    /// Starts a checkpoint of everything that the log holds so far. The flush
    /// covers the sequences since the last acknowledged one.
    pub fn on_checkpoint_needed(&mut self, wal: &Wal) -> (action: CheckpointAction)
        requires
            old(self)@.wf(),
        ensures
            action == (CheckpointAction::Flush {
                lo: match wal@.last_checkpoint_seq {
                    Some(seq) => seq,
                    None => 0,
                },
                hi: wal@.next_seq,
            }),
            final(self)@ == (CheckpointView {
                stage: Stage::Flushing { flush_seq: wal@.next_seq },
                ..old(self)@
            }),
            action == flush_of(wal@),
            final(self)@ == old(self)@.started(wal@),
            final(self)@.wf(),
    {
        let flush_seq: u64 = wal.next_seq();
        let lo: u64 = match wal.last_checkpoint_seq() {
            Some(seq) => seq,
            None => 0,
        };
        self.stage = Stage::Flushing { flush_seq };
        CheckpointAction::Flush { lo, hi: flush_seq }
    }

    fn save_from(&mut self, flush_seq: u64, index: usize) -> (action: CheckpointAction)
        ensures
            (final(self)@, action) == old(self)@.save_from(flush_seq, index),
    {
        if index < self.indexes.len() {
            self.stage = Stage::Saving { flush_seq, index };
            CheckpointAction::SaveIndex { index }
        } else {
            self.stage = Stage::Acknowledging { flush_seq };
            CheckpointAction::Acknowledge { flush_seq }
        }
    }

    fn compact_while(&mut self, flush_seq: u64, count: RunCount) -> (action: CheckpointAction)
        ensures
            (final(self)@, action) == old(self)@.compact_while(flush_seq, count),
    {
        if count.runs >= count.trigger {
            self.stage = Stage::Compacting { flush_seq };
            CheckpointAction::Compact
        } else {
            self.save_from(flush_seq, 0)
        }
    }

    /// Takes note of how the last action went, and says what is next.
    pub fn step(&mut self, event: CheckpointEvent) -> (r: Result<CheckpointAction, CheckpointError>)
        requires
            old(self)@.wf(),
            old(self)@.awaits(event),
        ensures
            (final(self)@, r) == old(self)@.stepped(event),
            final(self)@.wf(),
    {
        match (self.stage, event) {
            (Stage::Flushing { flush_seq }, CheckpointEvent::Flushed(Ok(count))) => Ok(
                self.compact_while(flush_seq, count),
            ),
            (Stage::Flushing { .. }, CheckpointEvent::Flushed(Err(e))) => {
                self.stage = Stage::Idle;
                Err(CheckpointError::Flush(e))
            },
            (Stage::Compacting { flush_seq }, CheckpointEvent::Compacted(Ok(Some(count)))) => Ok(
                self.compact_while(flush_seq, count),
            ),
            (Stage::Compacting { flush_seq }, CheckpointEvent::Compacted(Ok(None))) => Ok(
                self.save_from(flush_seq, 0),
            ),
            (Stage::Compacting { .. }, CheckpointEvent::Compacted(Err(e))) => {
                self.stage = Stage::Idle;
                Err(CheckpointError::Compact(e))
            },
            (Stage::Saving { flush_seq, index }, CheckpointEvent::IndexSaved(_)) => Ok(
                self.save_from(flush_seq, index + 1),
            ),
            (Stage::Acknowledging { .. }, CheckpointEvent::Acknowledged(Ok(_))) => {
                self.stage = Stage::Idle;
                Ok(CheckpointAction::Done)
            },
            (Stage::Acknowledging { .. }, CheckpointEvent::Acknowledged(Err(e))) => {
                self.stage = Stage::Idle;
                Err(CheckpointError::Wal(e))
            },
            _ => Ok(CheckpointAction::Done),
        }
    }
}

/// The sequence that a checkpoint under way will acknowledge.
pub open spec fn pending_flush(stage: Stage) -> Option<u64> {
    match stage {
        Stage::Idle => None,
        Stage::Flushing { flush_seq } => Some(flush_seq),
        Stage::Compacting { flush_seq } => Some(flush_seq),
        Stage::Saving { flush_seq, .. } => Some(flush_seq),
        Stage::Acknowledging { flush_seq } => Some(flush_seq),
    }
}

/// Only the sequence that the checkpoint started with is ever acknowledged, and
/// a failed flush or compaction acknowledges nothing.
pub proof fn law_acknowledges_what_was_flushed(c: CheckpointView, event: CheckpointEvent)
    requires
        c.wf(),
        c.awaits(event),
    ensures
        ({
            let (next, r) = c.stepped(event);
            &&& next.stage is Idle || pending_flush(next.stage) == pending_flush(c.stage)
            &&& r matches Ok(CheckpointAction::Acknowledge { flush_seq }) ==> pending_flush(c.stage)
                == Some(flush_seq)
            &&& r is Err ==> next.stage is Idle
        }),
{
}

/// Failing to save an index changes nothing about the rest of a checkpoint.
pub proof fn law_index_failure_is_not_fatal(c: CheckpointView)
    requires
        c.wf(),
        c.awaits(CheckpointEvent::IndexSaved(false)),
    ensures
        c.stepped(CheckpointEvent::IndexSaved(false)) == c.stepped(
            CheckpointEvent::IndexSaved(true),
        ),
        c.stepped(CheckpointEvent::IndexSaved(false)).1 is Ok,
{
}

} // verus!
