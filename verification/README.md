# minkowski_persist

The durability and replication core of an entity store, written and verified
with Verus: segmented write-ahead logs, crash recovery, bounded range reads,
preflighted replay, journaled followers, pull pumps, member sessions, index
files, checkpoints and world fingerprints.

- `src/` is the library. Every decision is a function on plain values, with its
  contract. The host passes in what the files hold and how each write went; it
  gets back what to do next. Files named `*_laws.rs` state what holds across
  several calls.
- `app/` is the host: files, locks, archived bytes, and traits for the entity
  store behind them.
- `tests/` runs the library against in-memory disks and worlds.

The library rests on two outside crates: `crc32fast` for checksums and `rkyv`'s
aligned buffers for payloads. What it takes from them without proof is stated in
`src/crc.rs` and `src/aligned.rs`.
