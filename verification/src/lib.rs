//! Durability and replication core of an entity store: framed write-ahead-log
//! segments, crash recovery, bounded range reads, journaled ingestion and
//! follower bookkeeping. Every decision is a function on plain values; disks,
//! sockets and the entity store itself belong to the caller.

pub mod accept_laws;
pub mod aligned;
pub mod alike_laws;
pub mod apply;
pub mod apply_laws;
pub mod binding_laws;
pub mod change;
pub mod change_laws;
pub mod checkpoint;
pub mod checkpoint_laws;
pub mod crc;
pub mod cursor;
pub mod cursor_laws;
pub mod ends;
pub mod error;
pub mod feed_laws;
pub mod fingerprint;
pub mod fingerprint_laws;
pub mod format;
pub mod frame;
pub mod frame_laws;
pub mod history_laws;
pub mod index;
pub mod ingest;
pub mod ingest_laws;
pub mod log_laws;
pub mod messages;
pub mod plan;
pub mod plan_laws;
pub mod range;
pub mod range_laws;
pub mod record;
pub mod recover;
pub mod recovery;
pub mod recovery_laws;
pub mod repair_laws;
pub mod replay_laws;
pub mod replicated;
pub mod replication;
pub mod replication_laws;
pub mod segment;
pub mod sorted;
pub mod source_laws;
pub mod text;
pub mod transport;
pub mod views;
pub mod wal;
pub mod wal_laws;
