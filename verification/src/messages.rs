//! Failures in words.
use crate::checkpoint::CheckpointError;
use crate::error::{CodecError, FormatIssue, IoError, WalError};
use crate::fingerprint::FingerprintError;
use crate::index::{IndexIssue, IndexPersistError};
use crate::ingest::IngestError;
use crate::recover::RecoverError;
use crate::replication::{FollowerError, ReplicationError};
use crate::text;
use crate::transport::{PumpError, TransportError};
use vstd::prelude::*;
use vstd::string::*;

verus! {

/// An I/O failure in words.
pub open spec fn io_text(e: IoError) -> Seq<char> {
    match e {
        IoError::NotFound => "entity not found"@,
        IoError::UnexpectedEof => "unexpected end of file"@,
        IoError::Host(m) => m@,
    }
}

impl IoError {
    /// The I/O failure in words.
    pub fn message(&self) -> (text: String)
        ensures
            text@ == io_text(*self),
    {
        let mut out = String::new();
        match self {
            IoError::NotFound => {
                out.append("entity not found");
            },
            IoError::UnexpectedEof => {
                out.append("unexpected end of file");
            },
            IoError::Host(m) => {
                out.append(m.as_str());
            },
        }
        assert(out@ =~= io_text(*self));
        out
    }
}

/// A codec failure in words.
pub open spec fn codec_text(e: CodecError) -> Seq<char> {
    match e {
        CodecError::UnregisteredComponent(id) => "unregistered component "@
            + text::decimal_digits(id as nat),
        CodecError::Other(m) => m@,
    }
}

impl CodecError {
    /// The codec failure in words.
    pub fn message(&self) -> (text: String)
        ensures
            text@ == codec_text(*self),
    {
        let mut out = String::new();
        match self {
            CodecError::UnregisteredComponent(id) => {
                out.append("unregistered component ");
                text::push_decimal(&mut out, *id as u64);
            },
            CodecError::Other(m) => {
                out.append(m.as_str());
            },
        }
        assert(out@ =~= codec_text(*self));
        out
    }
}

/// A fault in words.
pub open spec fn format_text(e: FormatIssue) -> Seq<char> {
    match e {
        FormatIssue::Text(t) => t@,
        FormatIssue::Outside(m) => m@,
        FormatIssue::Codec(e) => codec_text(e),
        FormatIssue::FrameTooLarge { offset, len } => "WAL frame at offset "@
            + text::decimal_digits(offset as nat) + " claims "@ + text::decimal_digits(len as nat)
            + " bytes, exceeding maximum 268435456"@,
        FormatIssue::EntryTooLarge { len } => "WAL frame too large: "@
            + text::decimal_digits(len as nat) + " bytes exceeds u32 max"@,
        FormatIssue::TruncatedHeader { offset } => "truncated frame header at offset "@
            + text::decimal_digits(offset as nat),
        FormatIssue::TruncatedPayload { offset } => "truncated frame payload at offset "@
            + text::decimal_digits(offset as nat),
        FormatIssue::TruncatedPublished { offset } => "truncated published frame at offset "@
            + text::decimal_digits(offset as nat),
        FormatIssue::CorruptEntry { offset, detail } => "corrupt WAL entry at byte offset "@
            + text::decimal_digits(offset as nat) + ": "@ + detail@,
        FormatIssue::InvalidJournalEntry { detail } => "invalid ingest journal entry: "@ + detail@,
        FormatIssue::TickOverflow { seq } => "tick overflow at seq "@
            + text::decimal_digits(seq as nat),
        FormatIssue::UnboundComponent { name: Some(n) } => "component '"@ + n@
            + "' is not registered in the destination world"@,
        FormatIssue::UnboundComponent { name: None } =>
            "component 'unknown' is not registered in the destination world"@,
        FormatIssue::LegacySegment { path } => "segment "@ + path@
            + " uses legacy v1 format (no CRC32 checksums); migrate by replaying into a new WAL or rebuild from snapshot"@,
    }
}

impl FormatIssue {
    /// The fault in words.
    pub fn message(&self) -> (text: String)
        ensures
            text@ == format_text(*self),
    {
        let mut out = String::new();
        match self {
            FormatIssue::Text(t) => {
                out.append(t);
            },
            FormatIssue::Outside(m) => {
                out.append(m.as_str());
            },
            FormatIssue::Codec(e) => {
                out.append(e.message().as_str());
            },
            FormatIssue::FrameTooLarge { offset, len } => {
                out.append("WAL frame at offset ");
                text::push_decimal(&mut out, *offset);
                out.append(" claims ");
                text::push_decimal(&mut out, *len);
                out.append(" bytes, exceeding maximum 268435456");
            },
            FormatIssue::EntryTooLarge { len } => {
                out.append("WAL frame too large: ");
                text::push_decimal(&mut out, *len);
                out.append(" bytes exceeds u32 max");
            },
            FormatIssue::TruncatedHeader { offset } => {
                out.append("truncated frame header at offset ");
                text::push_decimal(&mut out, *offset);
            },
            FormatIssue::TruncatedPayload { offset } => {
                out.append("truncated frame payload at offset ");
                text::push_decimal(&mut out, *offset);
            },
            FormatIssue::TruncatedPublished { offset } => {
                out.append("truncated published frame at offset ");
                text::push_decimal(&mut out, *offset);
            },
            FormatIssue::CorruptEntry { offset, detail } => {
                out.append("corrupt WAL entry at byte offset ");
                text::push_decimal(&mut out, *offset);
                out.append(": ");
                out.append(detail.as_str());
            },
            FormatIssue::InvalidJournalEntry { detail } => {
                out.append("invalid ingest journal entry: ");
                out.append(detail.as_str());
            },
            FormatIssue::TickOverflow { seq } => {
                out.append("tick overflow at seq ");
                text::push_decimal(&mut out, *seq);
            },
            FormatIssue::UnboundComponent { name: Some(n) } => {
                out.append("component '");
                out.append(n.as_str());
                out.append("' is not registered in the destination world");
            },
            FormatIssue::UnboundComponent { name: None } => {
                out.append("component 'unknown' is not registered in the destination world");
            },
            FormatIssue::LegacySegment { path } => {
                out.append("segment ");
                out.append(path.as_str());
                out.append(" uses legacy v1 format (no CRC32 checksums); migrate by replaying into a new WAL or rebuild from snapshot");
            },
        }
        assert(out@ =~= format_text(*self));
        out
    }
}

/// A failure in words.
pub open spec fn wal_text(e: WalError) -> Seq<char> {
    match e {
        WalError::TickRegression { seq, record_tick, world_tick } => "tick regression at seq "@
            + text::decimal_digits(seq as nat) + ": record tick "@
            + text::decimal_digits(record_tick as nat) + " is below world tick "@
            + text::decimal_digits(world_tick as nat),
        WalError::Io(e) => "WAL I/O error: "@ + io_text(e),
        WalError::Codec(e) => "WAL codec error: "@ + codec_text(e),
        WalError::Format(e) => "WAL format error: "@ + format_text(e),
        WalError::ChecksumMismatch { offset, expected, actual } =>
            "WAL checksum mismatch at byte offset "@
            + text::decimal_digits(offset as nat) + ": expected 0x"@
            + text::hex_digits(expected as nat, 8) + ", got 0x"@
            + text::hex_digits(actual as nat, 8),
        WalError::CursorBehind { requested, oldest } => "cursor behind: requested seq "@
            + text::decimal_digits(requested as nat) + " but oldest available is "@
            + text::decimal_digits(oldest as nat),
        WalError::RangeAhead { requested, durable_tail } => "range request "@
            + text::decimal_digits(requested as nat) + " is past durable tail "@
            + text::decimal_digits(durable_tail as nat),
        WalError::InvalidRangeLimits => "range limits must all be positive"@,
        WalError::RangeLimitTooSmall =>
            "range limits cannot fit a mutation and its schema context"@,
        WalError::MissingFenceContext { oldest } => "retained WAL starts at "@
            + text::decimal_digits(oldest as nat) + "; prefix fence context requires rejoin"@,
        WalError::UnresolvedHistory { seq, reason } => "unresolved WAL history at seq "@
            + text::decimal_digits(seq as nat) + ": "@ + reason@,
        WalError::Apply(m) => "WAL apply error: "@ + m@,
    }
}

impl WalError {
    /// The failure in words.
    pub fn message(&self) -> (text: String)
        ensures
            text@ == wal_text(*self),
    {
        let mut out = String::new();
        match self {
            WalError::TickRegression { seq, record_tick, world_tick } => {
                out.append("tick regression at seq ");
                text::push_decimal(&mut out, *seq);
                out.append(": record tick ");
                text::push_decimal(&mut out, *record_tick);
                out.append(" is below world tick ");
                text::push_decimal(&mut out, *world_tick);
            },
            WalError::Io(e) => {
                out.append("WAL I/O error: ");
                out.append(e.message().as_str());
            },
            WalError::Codec(e) => {
                out.append("WAL codec error: ");
                out.append(e.message().as_str());
            },
            WalError::Format(e) => {
                out.append("WAL format error: ");
                out.append(e.message().as_str());
            },
            WalError::ChecksumMismatch { offset, expected, actual } => {
                out.append("WAL checksum mismatch at byte offset ");
                text::push_decimal(&mut out, *offset);
                out.append(": expected 0x");
                text::push_hex(&mut out, *expected as u64, 8);
                out.append(", got 0x");
                text::push_hex(&mut out, *actual as u64, 8);
            },
            WalError::CursorBehind { requested, oldest } => {
                out.append("cursor behind: requested seq ");
                text::push_decimal(&mut out, *requested);
                out.append(" but oldest available is ");
                text::push_decimal(&mut out, *oldest);
            },
            WalError::RangeAhead { requested, durable_tail } => {
                out.append("range request ");
                text::push_decimal(&mut out, *requested);
                out.append(" is past durable tail ");
                text::push_decimal(&mut out, *durable_tail);
            },
            WalError::InvalidRangeLimits => {
                out.append("range limits must all be positive");
            },
            WalError::RangeLimitTooSmall => {
                out.append("range limits cannot fit a mutation and its schema context");
            },
            WalError::MissingFenceContext { oldest } => {
                out.append("retained WAL starts at ");
                text::push_decimal(&mut out, *oldest);
                out.append("; prefix fence context requires rejoin");
            },
            WalError::UnresolvedHistory { seq, reason } => {
                out.append("unresolved WAL history at seq ");
                text::push_decimal(&mut out, *seq);
                out.append(": ");
                out.append(reason);
            },
            WalError::Apply(m) => {
                out.append("WAL apply error: ");
                out.append(m.as_str());
            },
        }
        assert(out@ =~= wal_text(*self));
        out
    }
}

/// A failure in words.
pub open spec fn replication_text(e: ReplicationError) -> Seq<char> {
    match e {
        ReplicationError::Format(e) => "replication format error: "@ + wal_text(e),
        ReplicationError::Codec(e) => "replication codec error: "@ + codec_text(e),
    }
}

impl ReplicationError {
    /// The failure in words.
    pub fn message(&self) -> (text: String)
        ensures
            text@ == replication_text(*self),
    {
        let mut out = String::new();
        match self {
            ReplicationError::Format(e) => {
                out.append("replication format error: ");
                out.append(e.message().as_str());
            },
            ReplicationError::Codec(e) => {
                out.append("replication codec error: ");
                out.append(e.message().as_str());
            },
        }
        assert(out@ =~= replication_text(*self));
        out
    }
}

/// A failure in words.
pub open spec fn follower_text(e: FollowerError) -> Seq<char> {
    match e {
        FollowerError::Poisoned =>
            "follower poisoned by an earlier mid-batch failure; rejoin via state transfer"@,
        FollowerError::Stale { requested, applied_seq } => "read at seq "@
            + text::decimal_digits(requested as nat) + " is ahead of applied_seq "@
            + text::decimal_digits(applied_seq as nat),
        FollowerError::TickRegression { seq, record_tick, world_tick } => "tick regression at seq "@
            + text::decimal_digits(seq as nat) + ": record tick "@
            + text::decimal_digits(record_tick as nat) + " is below world tick "@
            + text::decimal_digits(world_tick as nat),
        FollowerError::Gap { expected, got } => "gap in log: expected seq "@
            + text::decimal_digits(expected as nat) + ", got "@ + text::decimal_digits(got as nat),
        FollowerError::Apply(e) => "apply failed: "@ + wal_text(e),
    }
}

impl FollowerError {
    /// The failure in words.
    pub fn message(&self) -> (text: String)
        ensures
            text@ == follower_text(*self),
    {
        let mut out = String::new();
        match self {
            FollowerError::Poisoned => {
                out.append("follower poisoned by an earlier mid-batch failure; rejoin via state transfer");
            },
            FollowerError::Stale { requested, applied_seq } => {
                out.append("read at seq ");
                text::push_decimal(&mut out, *requested);
                out.append(" is ahead of applied_seq ");
                text::push_decimal(&mut out, *applied_seq);
            },
            FollowerError::TickRegression { seq, record_tick, world_tick } => {
                out.append("tick regression at seq ");
                text::push_decimal(&mut out, *seq);
                out.append(": record tick ");
                text::push_decimal(&mut out, *record_tick);
                out.append(" is below world tick ");
                text::push_decimal(&mut out, *world_tick);
            },
            FollowerError::Gap { expected, got } => {
                out.append("gap in log: expected seq ");
                text::push_decimal(&mut out, *expected);
                out.append(", got ");
                text::push_decimal(&mut out, *got);
            },
            FollowerError::Apply(e) => {
                out.append("apply failed: ");
                out.append(e.message().as_str());
            },
        }
        assert(out@ =~= follower_text(*self));
        out
    }
}

/// A failure in words.
pub open spec fn ingest_text(e: IngestError) -> Seq<char> {
    match e {
        IngestError::HistoryMismatch =>
            "source history does not match the ingest journal; rejoin required"@,
        IngestError::Wal(e) => wal_text(e),
        IngestError::Follower(e) => follower_text(e),
    }
}

impl IngestError {
    /// The failure in words.
    pub fn message(&self) -> (text: String)
        ensures
            text@ == ingest_text(*self),
    {
        let mut out = String::new();
        match self {
            IngestError::HistoryMismatch => {
                out.append("source history does not match the ingest journal; rejoin required");
            },
            IngestError::Wal(e) => {
                out.append(e.message().as_str());
            },
            IngestError::Follower(e) => {
                out.append(e.message().as_str());
            },
        }
        assert(out@ =~= ingest_text(*self));
        out
    }
}

/// A failure in words.
pub open spec fn transport_text(e: TransportError) -> Seq<char> {
    match e {
        TransportError::Lost => "request or response lost; retry the same applied position"@,
        TransportError::Down => "link down; reconnect before retrying the same applied position"@,
        TransportError::RejoinRequired =>
            "source requires rejoin; install verified state before resuming"@,
        TransportError::Source(e) => wal_text(e),
    }
}

impl TransportError {
    /// The failure in words.
    pub fn message(&self) -> (text: String)
        ensures
            text@ == transport_text(*self),
    {
        let mut out = String::new();
        match self {
            TransportError::Lost => {
                out.append("request or response lost; retry the same applied position");
            },
            TransportError::Down => {
                out.append("link down; reconnect before retrying the same applied position");
            },
            TransportError::RejoinRequired => {
                out.append("source requires rejoin; install verified state before resuming");
            },
            TransportError::Source(e) => {
                out.append(e.message().as_str());
            },
        }
        assert(out@ =~= transport_text(*self));
        out
    }
}

/// A failure in words.
pub open spec fn pump_text(e: PumpError) -> Seq<char> {
    match e {
        PumpError::Stopped => "pump stopped; repair or rejoin before creating a new pump"@,
        PumpError::Transport(e) => transport_text(e),
        PumpError::Ingest(e) => ingest_text(e),
    }
}

impl PumpError {
    /// The failure in words.
    pub fn message(&self) -> (text: String)
        ensures
            text@ == pump_text(*self),
    {
        let mut out = String::new();
        match self {
            PumpError::Stopped => {
                out.append("pump stopped; repair or rejoin before creating a new pump");
            },
            PumpError::Transport(e) => {
                out.append(e.message().as_str());
            },
            PumpError::Ingest(e) => {
                out.append(e.message().as_str());
            },
        }
        assert(out@ =~= pump_text(*self));
        out
    }
}

/// A failure in words.
pub open spec fn recover_text(e: RecoverError) -> Seq<char> {
    match e {
        RecoverError::Lsm(m) => "LSM recovery error: "@ + m@,
        RecoverError::Wal(e) => "WAL replay error: "@ + wal_text(e),
    }
}

impl RecoverError {
    /// The failure in words.
    pub fn message(&self) -> (text: String)
        ensures
            text@ == recover_text(*self),
    {
        let mut out = String::new();
        match self {
            RecoverError::Lsm(m) => {
                out.append("LSM recovery error: ");
                out.append(m.as_str());
            },
            RecoverError::Wal(e) => {
                out.append("WAL replay error: ");
                out.append(e.message().as_str());
            },
        }
        assert(out@ =~= recover_text(*self));
        out
    }
}

/// A fault in words.
pub open spec fn index_issue_text(e: IndexIssue) -> Seq<char> {
    match e {
        IndexIssue::TooSmall => "index file too small"@,
        IndexIssue::Magic => "invalid index file magic"@,
        IndexIssue::Version { version } => "unsupported index format version "@
            + text::decimal_digits(version as nat) + ", expected 1"@,
        IndexIssue::PayloadLength => "invalid payload length"@,
        IndexIssue::Truncated { expected, got } => "index truncated: expected "@
            + text::decimal_digits(expected as nat) + " payload bytes, got "@
            + text::decimal_digits(got as nat),
        IndexIssue::Checksum { expected, actual } => "index checksum mismatch: expected 0x"@
            + text::hex_digits(expected as nat, 8) + ", got 0x"@
            + text::hex_digits(actual as nat, 8),
        IndexIssue::KeyType { found, expected } => "index key type mismatch: file has '"@ + found@
            + "', expected '"@ + expected@ + "'"@,
        IndexIssue::KeyEncode(m) => "key serialization failed: "@ + m@,
        IndexIssue::KeyDecode(m) => "key deserialization failed: "@ + m@,
        IndexIssue::PayloadEncode(m) => "payload serialization failed: "@ + m@,
        IndexIssue::PayloadDecode(m) => "payload deserialization failed: "@ + m@,
    }
}

impl IndexIssue {
    /// The fault in words.
    pub fn message(&self) -> (text: String)
        ensures
            text@ == index_issue_text(*self),
    {
        let mut out = String::new();
        match self {
            IndexIssue::TooSmall => {
                out.append("index file too small");
            },
            IndexIssue::Magic => {
                out.append("invalid index file magic");
            },
            IndexIssue::Version { version } => {
                out.append("unsupported index format version ");
                text::push_decimal(&mut out, *version as u64);
                out.append(", expected 1");
            },
            IndexIssue::PayloadLength => {
                out.append("invalid payload length");
            },
            IndexIssue::Truncated { expected, got } => {
                out.append("index truncated: expected ");
                text::push_decimal(&mut out, *expected);
                out.append(" payload bytes, got ");
                text::push_decimal(&mut out, *got);
            },
            IndexIssue::Checksum { expected, actual } => {
                out.append("index checksum mismatch: expected 0x");
                text::push_hex(&mut out, *expected as u64, 8);
                out.append(", got 0x");
                text::push_hex(&mut out, *actual as u64, 8);
            },
            IndexIssue::KeyType { found, expected } => {
                out.append("index key type mismatch: file has '");
                out.append(found.as_str());
                out.append("', expected '");
                out.append(expected.as_str());
                out.append("'");
            },
            IndexIssue::KeyEncode(m) => {
                out.append("key serialization failed: ");
                out.append(m.as_str());
            },
            IndexIssue::KeyDecode(m) => {
                out.append("key deserialization failed: ");
                out.append(m.as_str());
            },
            IndexIssue::PayloadEncode(m) => {
                out.append("payload serialization failed: ");
                out.append(m.as_str());
            },
            IndexIssue::PayloadDecode(m) => {
                out.append("payload deserialization failed: ");
                out.append(m.as_str());
            },
        }
        assert(out@ =~= index_issue_text(*self));
        out
    }
}

/// A failure in words.
pub open spec fn index_text(e: IndexPersistError) -> Seq<char> {
    match e {
        IndexPersistError::Io(e) => "index I/O error: "@ + io_text(e),
        IndexPersistError::Format(e) => "index format error: "@ + index_issue_text(e),
    }
}

impl IndexPersistError {
    /// The failure in words.
    pub fn message(&self) -> (text: String)
        ensures
            text@ == index_text(*self),
    {
        let mut out = String::new();
        match self {
            IndexPersistError::Io(e) => {
                out.append("index I/O error: ");
                out.append(e.message().as_str());
            },
            IndexPersistError::Format(e) => {
                out.append("index format error: ");
                out.append(e.message().as_str());
            },
        }
        assert(out@ =~= index_text(*self));
        out
    }
}

/// A failure in words.
pub open spec fn fingerprint_text(e: FingerprintError) -> Seq<char> {
    match e {
        FingerprintError::Unregistered { id } => "unregistered component "@
            + text::decimal_digits(id as nat),
        FingerprintError::NoCodec { id } => "no codec for component "@
            + text::decimal_digits(id as nat),
        FingerprintError::NoColumn { row } => "column bytes unavailable at row "@
            + text::decimal_digits(row as nat),
        FingerprintError::CodecFailed(m) => "codec serialize failed: "@ + m@,
        FingerprintError::NoValueCodec => "no codec for fingerprinted component"@,
    }
}

impl FingerprintError {
    /// The failure in words.
    pub fn message(&self) -> (text: String)
        ensures
            text@ == fingerprint_text(*self),
    {
        let mut out = String::new();
        match self {
            FingerprintError::Unregistered { id } => {
                out.append("unregistered component ");
                text::push_decimal(&mut out, *id as u64);
            },
            FingerprintError::NoCodec { id } => {
                out.append("no codec for component ");
                text::push_decimal(&mut out, *id as u64);
            },
            FingerprintError::NoColumn { row } => {
                out.append("column bytes unavailable at row ");
                text::push_decimal(&mut out, *row as u64);
            },
            FingerprintError::CodecFailed(m) => {
                out.append("codec serialize failed: ");
                out.append(m.as_str());
            },
            FingerprintError::NoValueCodec => {
                out.append("no codec for fingerprinted component");
            },
        }
        assert(out@ =~= fingerprint_text(*self));
        out
    }
}

/// A failure in words.
pub open spec fn checkpoint_text(e: CheckpointError) -> Seq<char> {
    match e {
        CheckpointError::Flush(m) => m@,
        CheckpointError::Compact(m) => m@,
        CheckpointError::Wal(e) => wal_text(e),
    }
}

impl CheckpointError {
    /// The failure in words.
    pub fn message(&self) -> (text: String)
        ensures
            text@ == checkpoint_text(*self),
    {
        let mut out = String::new();
        match self {
            CheckpointError::Flush(m) => {
                out.append(m.as_str());
            },
            CheckpointError::Compact(m) => {
                out.append(m.as_str());
            },
            CheckpointError::Wal(e) => {
                out.append(e.message().as_str());
            },
        }
        assert(out@ =~= checkpoint_text(*self));
        out
    }
}

/// The text is made of `a`, `p`, `b`, `q` and `c`.
pub open spec fn is_laid_out(
    text: Seq<char>,
    a: Seq<char>,
    p: Seq<char>,
    b: Seq<char>,
    q: Seq<char>,
    c: Seq<char>,
) -> bool {
    text == a + p + b + q + c
}

/// The text tells `p`, and behind it `q`.
pub open spec fn tells(text: Seq<char>, p: Seq<char>, q: Seq<char>) -> bool {
    exists|a: Seq<char>, b: Seq<char>, c: Seq<char>| #[trigger] is_laid_out(text, a, p, b, q, c)
}

proof fn lemma_tells(
    text: Seq<char>,
    a: Seq<char>,
    p: Seq<char>,
    b: Seq<char>,
    q: Seq<char>,
    c: Seq<char>,
)
    requires
        text =~= a + p + b + q + c,
    ensures
        tells(text, p, q),
{
    assert(is_laid_out(text, a, p, b, q, c));
}

/// A failure of the log is told with its numbers: where it is, then what was
/// wanted and what was found.
pub proof fn law_log_failures_tell_their_numbers(
    seq: u64,
    x: u64,
    y: u64,
    stored: u32,
    computed: u32,
    reason: &'static str,
)
    ensures
        ({
            let (s, p, q) = (
                text::decimal_digits(seq as nat),
                text::decimal_digits(x as nat),
                text::decimal_digits(y as nat),
            );
            let regression = wal_text(
                WalError::TickRegression { seq, record_tick: x, world_tick: y },
            );
            let mismatch = wal_text(
                WalError::ChecksumMismatch { offset: seq, expected: stored, actual: computed },
            );
            &&& tells(regression, s, p)
            &&& tells(regression, p, q)
            &&& tells(wal_text(WalError::CursorBehind { requested: x, oldest: y }), p, q)
            &&& tells(wal_text(WalError::RangeAhead { requested: x, durable_tail: y }), p, q)
            &&& tells(
                mismatch,
                text::hex_digits(stored as nat, 8),
                text::hex_digits(computed as nat, 8),
            )
            &&& tells(mismatch, s, text::hex_digits(stored as nat, 8))
            &&& tells(wal_text(WalError::UnresolvedHistory { seq, reason }), s, reason@)
            &&& tells(
                follower_text(FollowerError::Stale { requested: x, applied_seq: y }),
                p,
                q,
            )
            &&& tells(follower_text(FollowerError::Gap { expected: x, got: y }), p, q)
        }),
{
    let (s, p, q) = (
        text::decimal_digits(seq as nat),
        text::decimal_digits(x as nat),
        text::decimal_digits(y as nat),
    );
    let none = Seq::<char>::empty();
    let regression = wal_text(WalError::TickRegression { seq, record_tick: x, world_tick: y });
    lemma_tells(
        regression,
        "tick regression at seq "@,
        s,
        ": record tick "@,
        p,
        " is below world tick "@ + q,
    );
    lemma_tells(
        regression,
        "tick regression at seq "@ + s + ": record tick "@,
        p,
        " is below world tick "@,
        q,
        none,
    );
    lemma_tells(
        wal_text(WalError::CursorBehind { requested: x, oldest: y }),
        "cursor behind: requested seq "@,
        p,
        " but oldest available is "@,
        q,
        none,
    );
    lemma_tells(
        wal_text(WalError::RangeAhead { requested: x, durable_tail: y }),
        "range request "@,
        p,
        " is past durable tail "@,
        q,
        none,
    );
    let (h, g) = (text::hex_digits(stored as nat, 8), text::hex_digits(computed as nat, 8));
    let mismatch = wal_text(
        WalError::ChecksumMismatch { offset: seq, expected: stored, actual: computed },
    );
    lemma_tells(
        mismatch,
        "WAL checksum mismatch at byte offset "@ + s + ": expected 0x"@,
        h,
        ", got 0x"@,
        g,
        none,
    );
    lemma_tells(
        mismatch,
        "WAL checksum mismatch at byte offset "@,
        s,
        ": expected 0x"@,
        h,
        ", got 0x"@ + g,
    );
    lemma_tells(
        wal_text(WalError::UnresolvedHistory { seq, reason }),
        "unresolved WAL history at seq "@,
        s,
        ": "@,
        reason@,
        none,
    );
    lemma_tells(
        follower_text(FollowerError::Stale { requested: x, applied_seq: y }),
        "read at seq "@,
        p,
        " is ahead of applied_seq "@,
        q,
        none,
    );
    lemma_tells(
        follower_text(FollowerError::Gap { expected: x, got: y }),
        "gap in log: expected seq "@,
        p,
        ", got "@,
        q,
        none,
    );
}

} // verus!
