//! Errors of the log and of replication, as plain values.
use crate::record::ComponentId;
use vstd::prelude::*;
use vstd::string::*;

verus! {

/// An I/O failure, told apart as far as decisions depend on it.
#[derive(Clone, Debug, PartialEq, Eq)]
pub enum IoError {
    NotFound,
    UnexpectedEof,
    /// Any other failure, as the host describes it.
    Host(String),
}

/// A failure of the component codec registry.
#[derive(Clone, Debug, PartialEq, Eq)]
pub enum CodecError {
    UnregisteredComponent(ComponentId),
    Other(String),
}

/// What is wrong with bytes or values that do not have the expected form.
#[derive(Clone, Debug, PartialEq, Eq)]
pub enum FormatIssue {
    /// A fault without further detail.
    Text(&'static str),
    /// A fault described by an outside encoder or decoder.
    Outside(String),
    /// A codec failure met where a value of the expected form was due.
    Codec(CodecError),
    FrameTooLarge { offset: u64, len: u64 },
    EntryTooLarge { len: u64 },
    TruncatedHeader { offset: u64 },
    TruncatedPayload { offset: u64 },
    TruncatedPublished { offset: u64 },
    CorruptEntry { offset: u64, detail: String },
    InvalidJournalEntry { detail: String },
    TickOverflow { seq: u64 },
    /// A component without a destination column, with its stable name if known.
    UnboundComponent { name: Option<String> },
    LegacySegment { path: String },
}

#[derive(Clone, Debug, PartialEq, Eq)]
pub enum WalError {
    TickRegression { seq: u64, record_tick: u64, world_tick: u64 },
    Io(IoError),
    Codec(CodecError),
    Format(FormatIssue),
    ChecksumMismatch { offset: u64, expected: u32, actual: u32 },
    CursorBehind { requested: u64, oldest: u64 },
    RangeAhead { requested: u64, durable_tail: u64 },
    InvalidRangeLimits,
    RangeLimitTooSmall,
    MissingFenceContext { oldest: u64 },
    UnresolvedHistory { seq: u64, reason: &'static str },
    Apply(String),
}

impl IoError {
    /// An equal copy.
    pub fn duplicate(&self) -> (copy: IoError)
        ensures
            copy == *self,
    {
        match self {
            IoError::NotFound => IoError::NotFound,
            IoError::UnexpectedEof => IoError::UnexpectedEof,
            IoError::Host(message) => IoError::Host(message.clone()),
        }
    }
}

impl CodecError {
    /// An equal copy.
    pub fn duplicate(&self) -> (copy: CodecError)
        ensures
            copy == *self,
    {
        match self {
            CodecError::UnregisteredComponent(id) => CodecError::UnregisteredComponent(*id),
            CodecError::Other(message) => CodecError::Other(message.clone()),
        }
    }
}

impl FormatIssue {
    /// An equal copy.
    pub fn duplicate(&self) -> (copy: FormatIssue)
        ensures
            copy == *self,
    {
        match self {
            FormatIssue::Text(text) => FormatIssue::Text(text),
            FormatIssue::Outside(message) => FormatIssue::Outside(message.clone()),
            FormatIssue::Codec(e) => FormatIssue::Codec(e.duplicate()),
            FormatIssue::FrameTooLarge { offset, len } => FormatIssue::FrameTooLarge {
                offset: *offset,
                len: *len,
            },
            FormatIssue::EntryTooLarge { len } => FormatIssue::EntryTooLarge { len: *len },
            FormatIssue::TruncatedHeader { offset } => FormatIssue::TruncatedHeader {
                offset: *offset,
            },
            FormatIssue::TruncatedPayload { offset } => FormatIssue::TruncatedPayload {
                offset: *offset,
            },
            FormatIssue::TruncatedPublished { offset } => FormatIssue::TruncatedPublished {
                offset: *offset,
            },
            FormatIssue::CorruptEntry { offset, detail } => FormatIssue::CorruptEntry {
                offset: *offset,
                detail: detail.clone(),
            },
            FormatIssue::InvalidJournalEntry { detail } => FormatIssue::InvalidJournalEntry {
                detail: detail.clone(),
            },
            FormatIssue::TickOverflow { seq } => FormatIssue::TickOverflow { seq: *seq },
            FormatIssue::UnboundComponent { name } => FormatIssue::UnboundComponent {
                name: match name {
                    Some(n) => Some(n.clone()),
                    None => None,
                },
            },
            FormatIssue::LegacySegment { path } => FormatIssue::LegacySegment {
                path: path.clone(),
            },
        }
    }
}

impl WalError {
    /// An equal copy.
    pub fn duplicate(&self) -> (copy: WalError)
        ensures
            copy == *self,
    {
        match self {
            WalError::TickRegression { seq, record_tick, world_tick } => WalError::TickRegression {
                seq: *seq,
                record_tick: *record_tick,
                world_tick: *world_tick,
            },
            WalError::Io(e) => WalError::Io(e.duplicate()),
            WalError::Codec(e) => WalError::Codec(e.duplicate()),
            WalError::Format(issue) => WalError::Format(issue.duplicate()),
            WalError::ChecksumMismatch { offset, expected, actual } => WalError::ChecksumMismatch {
                offset: *offset,
                expected: *expected,
                actual: *actual,
            },
            WalError::CursorBehind { requested, oldest } => WalError::CursorBehind {
                requested: *requested,
                oldest: *oldest,
            },
            WalError::RangeAhead { requested, durable_tail } => WalError::RangeAhead {
                requested: *requested,
                durable_tail: *durable_tail,
            },
            WalError::InvalidRangeLimits => WalError::InvalidRangeLimits,
            WalError::RangeLimitTooSmall => WalError::RangeLimitTooSmall,
            WalError::MissingFenceContext { oldest } => WalError::MissingFenceContext {
                oldest: *oldest,
            },
            WalError::UnresolvedHistory { seq, reason } => WalError::UnresolvedHistory {
                seq: *seq,
                reason,
            },
            WalError::Apply(message) => WalError::Apply(message.clone()),
        }
    }
}

} // verus!
