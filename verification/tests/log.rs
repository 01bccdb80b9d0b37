//! The log: appending, rolling over, recovery, replay, cursors and range reads.
use minkowski_persist::apply::{ApplyRemap, CodecInfo, Codecs, WorldShape};
use minkowski_persist::change::{apply_record, resolve_record, ComponentValue, WorldChange};
use minkowski_persist::cursor::WalCursor;
use minkowski_persist::error::{CodecError, FormatIssue, IoError, WalError};
use minkowski_persist::frame::{write_frame, DecodedFrame, RawFrame};
use minkowski_persist::range::{WalFrameRange, WalRangeLimits};
use minkowski_persist::record::{
    ComponentSchema, ReplicationBatch, SerializedMutation, WalEntry, WalRecord, WalSchema,
};
use minkowski_persist::recover::{recover_world, Baseline, RecoverError};
use minkowski_persist::recovery::leaves_next_seq;
use minkowski_persist::segment::{read_segment, segment_filename, SegmentImage};
use minkowski_persist::views::Views;
use minkowski_persist::wal::{
    AppendIo, CleanupIo, RollIo, Wal, WalConfig, WalStats,
};
use std::collections::BTreeMap;

/// The segment files of one log, by start sequence.
#[derive(Clone, Default)]
struct Disk {
    files: Vec<(u64, Vec<u8>)>,
}

impl Disk {
    fn file(&mut self, start: u64) -> &mut Vec<u8> {
        &mut self.files.iter_mut().find(|f| f.0 == start).unwrap().1
    }

    fn starts(&self) -> Vec<u64> {
        self.files.iter().map(|f| f.0).collect()
    }

    fn images(&self, codecs: &Codecs) -> Vec<SegmentImage> {
        let mut images = Vec::new();
        for (start, bytes) in &self.files {
            let (meta, frames) = read_segment(bytes);
            images.push(SegmentImage {
                start_seq: *start,
                path: segment_filename(*start),
                meta,
                frames: frames.into_iter().map(|f| decoded(f, codecs)).collect(),
            });
        }
        images
    }
}

fn put_u64(out: &mut Vec<u8>, n: u64) {
    out.extend_from_slice(&n.to_le_bytes());
}

fn put_bytes(out: &mut Vec<u8>, bytes: &[u8]) {
    put_u64(out, bytes.len() as u64);
    out.extend_from_slice(bytes);
}

fn encode(entry: &WalEntry) -> Vec<u8> {
    let mut out = Vec::new();
    match entry {
        WalEntry::Schema(schema) => {
            out.push(0);
            put_u64(&mut out, schema.components.len() as u64);
            for c in &schema.components {
                put_u64(&mut out, c.id as u64);
                put_bytes(&mut out, c.name.as_bytes());
                put_u64(&mut out, c.size as u64);
                put_u64(&mut out, c.align as u64);
            }
        }
        WalEntry::Mutations(record) => {
            out.push(1);
            put_u64(&mut out, record.seq);
            put_u64(&mut out, record.tick_after);
            put_u64(&mut out, record.mutations.len() as u64);
            for m in &record.mutations {
                match m {
                    SerializedMutation::Spawn { entity, components } => {
                        out.push(0);
                        put_u64(&mut out, *entity);
                        put_u64(&mut out, components.len() as u64);
                        for (id, data) in components {
                            put_u64(&mut out, *id as u64);
                            put_bytes(&mut out, data);
                        }
                    }
                    SerializedMutation::Despawn { entity } => {
                        out.push(1);
                        put_u64(&mut out, *entity);
                    }
                    SerializedMutation::Insert { entity, component_id, data } => {
                        out.push(2);
                        put_u64(&mut out, *entity);
                        put_u64(&mut out, *component_id as u64);
                        put_bytes(&mut out, data);
                    }
                    SerializedMutation::Remove { entity, component_id } => {
                        out.push(3);
                        put_u64(&mut out, *entity);
                        put_u64(&mut out, *component_id as u64);
                    }
                    SerializedMutation::SparseInsert { entity, component_id, data } => {
                        out.push(4);
                        put_u64(&mut out, *entity);
                        put_u64(&mut out, *component_id as u64);
                        put_bytes(&mut out, data);
                    }
                    SerializedMutation::SparseRemove { entity, component_id } => {
                        out.push(5);
                        put_u64(&mut out, *entity);
                        put_u64(&mut out, *component_id as u64);
                    }
                }
            }
        }
        WalEntry::Checkpoint { flush_seq } => {
            out.push(2);
            put_u64(&mut out, *flush_seq);
        }
    }
    out
}

struct Reader<'a> {
    bytes: &'a [u8],
}

impl Reader<'_> {
    fn byte(&mut self) -> Result<u8, String> {
        let (first, rest) = self.bytes.split_first().ok_or("short entry")?;
        self.bytes = rest;
        Ok(*first)
    }

    fn number(&mut self) -> Result<u64, String> {
        if self.bytes.len() < 8 {
            return Err("short entry".to_string());
        }
        let (head, rest) = self.bytes.split_at(8);
        self.bytes = rest;
        Ok(u64::from_le_bytes(head.try_into().unwrap()))
    }

    fn blob(&mut self) -> Result<Vec<u8>, String> {
        let n = self.number()? as usize;
        if self.bytes.len() < n {
            return Err("short entry".to_string());
        }
        let (head, rest) = self.bytes.split_at(n);
        self.bytes = rest;
        Ok(head.to_vec())
    }
}

fn decode(bytes: &[u8]) -> Result<WalEntry, String> {
    let mut r = Reader { bytes };
    match r.byte()? {
        0 => {
            let n = r.number()?;
            let mut components = Vec::new();
            for _ in 0..n {
                components.push(ComponentSchema {
                    id: r.number()? as usize,
                    name: String::from_utf8(r.blob()?).map_err(|e| e.to_string())?,
                    size: r.number()? as usize,
                    align: r.number()? as usize,
                });
            }
            Ok(WalEntry::Schema(WalSchema { components }))
        }
        1 => {
            let seq = r.number()?;
            let tick_after = r.number()?;
            let n = r.number()?;
            let mut mutations = Vec::new();
            for _ in 0..n {
                let tag = r.byte()?;
                let entity = r.number()?;
                mutations.push(match tag {
                    0 => {
                        let count = r.number()?;
                        let mut components = Vec::new();
                        for _ in 0..count {
                            components.push((r.number()? as usize, r.blob()?));
                        }
                        SerializedMutation::Spawn { entity, components }
                    }
                    1 => SerializedMutation::Despawn { entity },
                    2 => SerializedMutation::Insert {
                        entity,
                        component_id: r.number()? as usize,
                        data: r.blob()?,
                    },
                    3 => SerializedMutation::Remove {
                        entity,
                        component_id: r.number()? as usize,
                    },
                    4 => SerializedMutation::SparseInsert {
                        entity,
                        component_id: r.number()? as usize,
                        data: r.blob()?,
                    },
                    5 => SerializedMutation::SparseRemove {
                        entity,
                        component_id: r.number()? as usize,
                    },
                    other => return Err(format!("mutation tag {other}")),
                });
            }
            Ok(WalEntry::Mutations(WalRecord { seq, mutations, tick_after }))
        }
        2 => Ok(WalEntry::Checkpoint { flush_seq: r.number()? }),
        other => Err(format!("entry tag {other}")),
    }
}

/// The pairs of source and codec ids that a schema binds, by stable name.
fn bind(schema: &WalSchema, codecs: &Codecs) -> Result<Vec<(usize, usize)>, CodecError> {
    let mut pairs = Vec::new();
    for c in &schema.components {
        match codecs.entries.iter().find(|e| e.name == c.name) {
            Some(codec) => pairs.push((c.id, codec.id)),
            None => return Err(CodecError::Other(format!("no codec named {}", c.name))),
        }
    }
    Ok(pairs)
}

fn decoded(frame: RawFrame, codecs: &Codecs) -> DecodedFrame {
    let entry = decode(frame.payload_bytes());
    let binding = match &entry {
        Ok(WalEntry::Schema(schema)) => bind(schema, codecs),
        _ => Ok(Vec::new()),
    };
    DecodedFrame { frame, entry, binding }
}

fn codecs(names: &[&str]) -> Codecs {
    Codecs {
        entries: names
            .iter()
            .enumerate()
            .map(|(id, name)| CodecInfo {
                id,
                name: name.to_string(),
                size: 8,
                align: 4,
            })
            .collect(),
    }
}

/// A world whose components are byte strings.
#[derive(Clone, Debug, Default, PartialEq, Eq)]
struct World {
    columns: Vec<Option<String>>,
    tick: u64,
    rows: BTreeMap<u64, BTreeMap<usize, Vec<u8>>>,
}

impl World {
    fn new(names: &[&str]) -> World {
        World {
            columns: names.iter().map(|n| Some(n.to_string())).collect(),
            ..World::default()
        }
    }

    fn shape(&self) -> WorldShape {
        WorldShape { columns: self.columns.clone(), tick: self.tick }
    }

    fn column(&self, name: &str) -> usize {
        self.columns.iter().position(|c| c.as_deref() == Some(name)).unwrap()
    }

    fn values(&self, name: &str) -> Vec<Vec<u8>> {
        let column = self.column(name);
        self.rows.values().filter_map(|row| row.get(&column).cloned()).collect()
    }

    /// Resolves, decodes and applies one record.
    fn apply(
        &mut self,
        record: &WalRecord,
        codecs: &Codecs,
        remap: &ApplyRemap,
    ) -> Result<(), WalError> {
        let resolved = resolve_record(record, remap, codecs);
        let mut values = Vec::new();
        for t in &resolved.targets {
            let data = match &record.mutations[t.mutation] {
                SerializedMutation::Spawn { components, .. } => &components[t.component].1,
                SerializedMutation::Insert { data, .. } => data,
                SerializedMutation::SparseInsert { data, .. } => data,
                _ => unreachable!(),
            };
            values.push(Ok(ComponentValue { bytes: data.clone(), size: 8, align: 4 }));
        }
        let plan = apply_record(record, &self.shape(), codecs, Some(remap), &values)?;
        self.tick = plan.tick;
        for change in &plan.changes {
            let value = |v: &usize| {
                let t = &plan.targets[*v];
                (t.world_id, values[*v].as_ref().unwrap().bytes.clone())
            };
            let missing = |e: &u64| WalError::Apply(format!("entity {e} is not alive"));
            match change {
                WorldChange::Spawn { entity, first, count } => {
                    let row = (*first..*first + *count).map(|v| value(&v)).collect();
                    if self.rows.insert(*entity, row).is_some() {
                        return Err(WalError::Apply(format!("entity {entity} is alive")));
                    }
                }
                WorldChange::Despawn { entity } => {
                    self.rows.remove(entity).ok_or_else(|| missing(entity))?;
                }
                WorldChange::Insert { entity, value: v }
                | WorldChange::SparseInsert { entity, value: v } => {
                    let (column, bytes) = value(v);
                    let row = self.rows.get_mut(entity).ok_or_else(|| missing(entity))?;
                    row.insert(column, bytes);
                }
                WorldChange::Remove { entity, world_id }
                | WorldChange::SparseRemove { entity, world_id } => {
                    let row = self.rows.get_mut(entity).ok_or_else(|| missing(entity))?;
                    row.remove(world_id);
                }
            }
        }
        self.tick = plan.next_tick;
        Ok(())
    }
}

/// A log with its files.
struct Log {
    disk: Disk,
    wal: Wal,
    codecs: Codecs,
}

fn fine() -> CleanupIo {
    CleanupIo { removed: Ok(()), synced: Ok(()) }
}

fn broken() -> IoError {
    IoError::Host("injected failure".to_string())
}

fn spawn(entity: u64, x: u8) -> Vec<SerializedMutation> {
    vec![SerializedMutation::Spawn {
        entity,
        components: vec![(0, vec![x, 0, 0, 0, 0, 0, 0, 0])],
    }]
}

impl Log {
    fn create(codecs: Codecs, config: WalConfig) -> Log {
        let schema = codecs.build_schema();
        let payload = encode(&WalEntry::Schema(schema.clone()));
        let (wal, header) = Wal::create(schema, config, &payload).unwrap();
        Log {
            disk: Disk { files: vec![(0, header)] },
            wal,
            codecs,
        }
    }

    fn try_open(disk: Disk, codecs: Codecs, config: WalConfig) -> Result<Log, WalError> {
        let schema = codecs.build_schema();
        let payload = encode(&WalEntry::Schema(schema.clone()));
        let recovery = Wal::open(&disk.images(&codecs), schema, config, &payload)?;
        let mut disk = disk;
        let active = disk.file(recovery.wal.active_start_seq());
        active.truncate(recovery.truncate_to as usize);
        if let Some(header) = &recovery.header {
            active.clear();
            active.extend_from_slice(header);
        }
        Ok(Log { disk, wal: recovery.wal, codecs })
    }

    fn reopen(self, config: WalConfig) -> Log {
        Log::try_open(self.disk, self.codecs, config).unwrap()
    }

    fn images(&self) -> Vec<SegmentImage> {
        self.disk.images(&self.codecs)
    }

    fn cleanup(&mut self) -> CleanupIo {
        if let Some(start) = self.wal.pending_roll() {
            self.disk.files.retain(|f| f.0 != start);
        }
        fine()
    }

    fn roll_io(&mut self, start: u64) -> RollIo {
        let payload = encode(&WalEntry::Schema(self.codecs.build_schema()));
        let header = self.wal.roll_header(&payload).unwrap();
        let bytes = header.len() as u64;
        self.disk.files.push((start, header));
        RollIo { cleanup: fine(), opened: Ok(()), prepared: Ok(bytes), rollback: fine() }
    }

    fn no_roll() -> RollIo {
        RollIo { cleanup: fine(), opened: Err(broken()), prepared: Ok(0), rollback: fine() }
    }

    /// Appends an entry with the sequence number it says.
    fn append_entry(&mut self, entry: WalEntry) -> Result<u64, WalError> {
        let cleanup = self.cleanup();
        let payload = encode(&entry);
        let frame = self.wal.entry_frame(&payload).unwrap();
        let start = self.wal.active_start_seq();
        self.disk.file(start).extend_from_slice(&frame);
        let roll = if self.wal.roll_due(payload.len()) {
            let next = self.wal.next_seq() + 1;
            self.roll_io(next)
        } else {
            Log::no_roll()
        };
        let io = AppendIo { cleanup, write: Ok(()), sync: Ok(()), roll };
        self.wal.append(Ok(payload), io)
    }

    fn append(&mut self, mutations: Vec<SerializedMutation>, tick_after: u64) -> u64 {
        let seq = self.wal.next_seq();
        let entry = WalEntry::Mutations(WalRecord { seq, mutations, tick_after });
        self.append_entry(entry).unwrap()
    }

    /// Appends `n` spawns, each committed at the tick after the one before.
    fn spawns(&mut self, n: u64) {
        for _ in 0..n {
            let seq = self.wal.next_seq();
            self.append(spawn(seq, seq as u8), seq);
        }
    }

    fn acknowledge(&mut self, seq: u64) -> Result<(), WalError> {
        let cleanup = self.cleanup();
        let payload = encode(&WalEntry::Checkpoint { flush_seq: seq });
        let frame = self.wal.entry_frame(&payload).unwrap();
        let start = self.wal.active_start_seq();
        self.disk.file(start).extend_from_slice(&frame);
        let io = AppendIo { cleanup, write: Ok(()), sync: Ok(()), roll: Log::no_roll() };
        self.wal.acknowledge_flush(seq, Ok(payload), io)
    }

    fn roll(&mut self) {
        let next = self.wal.next_seq();
        let io = self.roll_io(next);
        self.wal.roll_segment(io).unwrap();
    }

    fn delete_before(&mut self, seq: u64) -> usize {
        let starts = self.disk.starts();
        let n = self.wal.deletable(&starts, seq);
        let removed = vec![Ok(()); n];
        let deleted = self.wal.delete_segments_before(seq, fine(), &starts, &removed).unwrap();
        self.disk.files.drain(..deleted);
        deleted
    }

    fn stats(&self) -> WalStats {
        self.wal.stats(&self.disk.starts())
    }

    /// Writes a frame behind the log's back.
    fn forge(&mut self, start: u64, entry: WalEntry, view: u64) {
        let frame = write_frame(&encode(&entry), view).unwrap();
        self.disk.file(start).extend_from_slice(&frame);
    }

    fn replay_from(&self, from_seq: u64, world: &mut World, codecs: &Codecs) -> Result<u64, WalError> {
        let images = self.disk.images(codecs);
        let plan = self.wal.replay_from(from_seq, &images, &world.shape(), codecs)?;
        let mut outcomes = Vec::new();
        for r in &plan.records {
            let outcome = match &images[r.source].frames[r.frame].entry {
                Ok(WalEntry::Mutations(record)) => {
                    world.apply(record, codecs, &plan.remaps[r.remap])
                }
                _ => unreachable!(),
            };
            let failed = outcome.is_err();
            outcomes.push(outcome);
            if failed {
                break;
            }
        }
        plan.execute(&outcomes).map(|done| done.0)
    }
}

fn pos(x: f32, y: f32) -> Vec<u8> {
    [x.to_le_bytes(), y.to_le_bytes()].concat()
}

fn health(n: u32) -> Vec<u8> {
    n.to_le_bytes().to_vec()
}

fn default_config() -> WalConfig {
    WalConfig::default()
}

fn small_config() -> WalConfig {
    WalConfig { max_segment_bytes: 128, max_bytes_between_checkpoints: None }
}

fn limits() -> WalRangeLimits {
    WalRangeLimits { max_records: 100, max_bytes: 1024 * 1024, max_control_frames: 100 }
}

fn mutation(seq: u64) -> WalEntry {
    WalEntry::Mutations(WalRecord { seq, tick_after: seq, mutations: Vec::new() })
}

fn insert(seq: u64, tick_after: u64, entity: u64, component_id: usize, data: Vec<u8>) -> WalEntry {
    WalEntry::Mutations(WalRecord {
        seq,
        tick_after,
        mutations: vec![SerializedMutation::Insert { entity, component_id, data }],
    })
}

/// A world with one row: entity 7 with a position.
fn placed() -> World {
    let mut world = World::new(&["pos"]);
    world.rows.insert(7, BTreeMap::from([(0, pos(1.0, 2.0))]));
    world
}

fn read(cursor: &mut WalCursor, log: &Log, limit: usize) -> ReplicationBatch {
    let images = log.images();
    let place = cursor.locate(&images).unwrap();
    cursor.next_batch(limit, &images, place).unwrap()
}

fn seqs(batch: &ReplicationBatch) -> Vec<u64> {
    batch.records.iter().map(|r| r.seq).collect()
}

#[test]
fn replay_preflight_validates_post_apply_ticks() {
    for (tick, next_tick) in [(5, 5), (5, 6), (u64::MAX - 1, u64::MAX)] {
        let mut world = placed();
        world.tick = tick;
        let codecs = codecs(&["pos"]);
        let mut log = Log::create(codecs.clone(), default_config());
        for (seq, tick_after) in [(0, tick), (1, next_tick)] {
            log.forge(0, insert(seq, tick_after, 7, 0, pos(9.0, 10.0)), 0);
        }
        let result = log.replay_from(0, &mut world, &codecs);
        if next_tick == 6 {
            assert_eq!(result.unwrap(), 1);
            assert_eq!(world.tick, 7);
            assert_eq!(world.values("pos"), vec![pos(9.0, 10.0)]);
        } else {
            if next_tick == tick {
                assert!(matches!(
                    result,
                    Err(WalError::TickRegression { seq: 1, record_tick: 5, world_tick: 6 })
                ));
            } else {
                let error = result.unwrap_err();
                assert!(matches!(error, WalError::Format(_)));
                assert!(error.message().contains("tick overflow"));
            }
            assert_eq!(world.values("pos"), vec![pos(1.0, 2.0)]);
            assert_eq!(world.tick, tick);
        }
    }
}

#[test]
fn replay_preflight_rejects_late_component_reference() {
    let mut world = placed();
    let tick = world.tick;
    let codecs = codecs(&["pos"]);
    let mut log = Log::create(codecs.clone(), default_config());
    for (seq, component_id) in [(0, 0), (1, 99)] {
        log.forge(0, insert(seq, tick + seq, 7, component_id, pos(9.0, 10.0)), 0);
    }
    assert!(matches!(
        log.replay_from(0, &mut world, &codecs),
        Err(WalError::Codec(CodecError::UnregisteredComponent(99)))
    ));
    assert_eq!(world.values("pos"), vec![pos(1.0, 2.0)]);
    assert_eq!(world.tick, tick);
}

#[test]
fn replay_plan_preserves_schema_and_fence_across_resume() {
    for corrupt_tail in [false, true] {
        let codecs = codecs(&["pos"]);
        // Another component comes first in the destination.
        let mut world = World::new(&["health", "pos"]);
        world.rows.insert(7, BTreeMap::from([(1, pos(1.0, 2.0))]));
        let tick = world.tick;
        let mut log = Log::create(codecs.clone(), default_config());
        let change = |seq: u64, component_id: usize, x: f32| {
            insert(seq, if seq < 4 { tick } else { tick + 1 }, 7, component_id, pos(x, 0.0))
        };
        // Before the replay floor; then stale, so neither resolved nor applied.
        log.forge(0, change(0, 0, 99.0), 0);
        log.forge(0, WalEntry::Checkpoint { flush_seq: 1 }, 7);
        log.forge(0, change(1, 99, 99.0), 6);
        log.disk.files.push((2, b"MKW3".to_vec()));
        // A stale schema must still establish the new mapping.
        let schema = WalSchema {
            components: vec![ComponentSchema { id: 77, name: "pos".into(), size: 8, align: 4 }],
        };
        log.forge(2, WalEntry::Schema(schema), 0);
        log.forge(2, change(2, 77, 3.0), 7);
        log.forge(2, WalEntry::Checkpoint { flush_seq: 3 }, 8);
        log.forge(2, change(3, 99, 99.0), 7);
        log.forge(2, change(4, 77, 5.0), 8);
        if corrupt_tail {
            let mut frame = write_frame(&encode(&change(5, 77, 7.0)), 8).unwrap();
            frame[4] ^= 1;
            log.disk.file(2).extend_from_slice(&frame);
        }
        let result = log.replay_from(1, &mut world, &codecs);
        if corrupt_tail {
            assert!(matches!(result, Err(WalError::ChecksumMismatch { .. })));
            assert_eq!(world.values("pos"), vec![pos(1.0, 2.0)]);
            assert_eq!(world.tick, tick);
        } else {
            assert_eq!(result.unwrap(), 4);
            assert_eq!(world.values("pos"), vec![pos(5.0, 0.0)]);
            assert_eq!(world.tick, tick + 2);
        }
    }
}

#[test]
fn create_append_and_replay() {
    let codecs = codecs(&["pos"]);
    let mut log = Log::create(codecs.clone(), default_config());
    let seq = log.append(spawn(0, 1), 0);
    assert_eq!(seq, 0);
    assert_eq!(log.wal.next_seq(), 1);
    let mut world = World::new(&["pos"]);
    assert_eq!(log.replay_from(0, &mut world, &codecs).unwrap(), 0);
    assert_eq!(world.values("pos"), vec![vec![1, 0, 0, 0, 0, 0, 0, 0]]);
}

#[test]
fn open_existing_wal() {
    let mut log = Log::create(codecs(&["health"]), default_config());
    for _ in 0..3 {
        log.append(Vec::new(), 0);
    }
    assert_eq!(log.reopen(default_config()).wal.next_seq(), 3);
}

#[test]
fn replay_from_skips_earlier_records() {
    let codecs = codecs(&["health"]);
    let mut log = Log::create(codecs.clone(), default_config());
    for _ in 0..3 {
        log.append(Vec::new(), 0);
    }
    let mut world = World::default();
    assert_eq!(log.replay_from(2, &mut world, &codecs).unwrap(), 2);
}

#[test]
fn empty_wal_replay() {
    let codecs = codecs(&[]);
    let log = Log::create(codecs.clone(), default_config());
    let mut world = World::default();
    assert_eq!(log.replay_from(0, &mut world, &codecs).unwrap(), 0);
}

#[test]
fn torn_entry_truncated_on_open() {
    let mut log = Log::create(codecs(&["health"]), default_config());
    log.append(Vec::new(), 0);
    log.append(Vec::new(), 0);
    log.disk.file(0).extend_from_slice(&1000u32.to_le_bytes());
    log.disk.file(0).extend_from_slice(&[0; 5]);
    let before = log.disk.file(0).len();
    let mut log = log.reopen(default_config());
    assert_eq!(log.wal.next_seq(), 2);
    assert!(log.disk.file(0).len() < before, "file should be truncated");
}

#[test]
fn torn_entry_truncated_on_replay() {
    let codecs = codecs(&["health"]);
    let mut log = Log::create(codecs.clone(), default_config());
    log.append(Vec::new(), 0);
    log.disk.file(0).extend_from_slice(&[0xFF, 0xFF]);
    let log = log.reopen(default_config());
    let mut world = World::default();
    assert_eq!(log.replay_from(0, &mut world, &codecs).unwrap(), 0);
}

#[test]
fn corrupted_payload_truncated_on_open() {
    let mut log = Log::create(codecs(&["health"]), default_config());
    log.append(Vec::new(), 0);
    log.append(Vec::new(), 0);
    let len = log.disk.file(0).len();
    log.disk.file(0).extend_from_slice(&20u32.to_le_bytes());
    log.disk.file(0).extend_from_slice(&[0xDE; 20]);
    assert!(log.disk.file(0).len() > len);
    let mut log = log.reopen(default_config());
    assert_eq!(log.wal.next_seq(), 2);
    assert_eq!(log.disk.file(0).len(), len);
}

#[test]
fn corrupted_payload_truncated_on_replay() {
    let codecs = codecs(&["health"]);
    let mut log = Log::create(codecs.clone(), default_config());
    log.append(Vec::new(), 0);
    let len = log.disk.file(0).len();
    log.disk.file(0).extend_from_slice(&15u32.to_le_bytes());
    log.disk.file(0).extend_from_slice(&[0xAB; 15]);
    let mut log = log.reopen(default_config());
    let mut world = World::default();
    assert_eq!(log.replay_from(0, &mut world, &codecs).unwrap(), 0);
    assert_eq!(log.disk.file(0).len(), len);
}

#[test]
fn create_writes_schema_preamble() {
    let log = Log::create(codecs(&["pos", "health"]), default_config());
    let images = log.images();
    match &images[0].frames[0].entry {
        Ok(WalEntry::Schema(schema)) => assert_eq!(schema.components.len(), 2),
        other => panic!("expected a schema, got {other:?}"),
    }
    let log = log.reopen(default_config());
    assert_eq!(log.wal.next_seq(), 0);
    assert_eq!(log.wal.schema().components[1].name, "health");
}

#[test]
fn wal_cross_process_different_registration_order() {
    let mut log = Log::create(codecs(&["pos", "health"]), default_config());
    log.append(
        vec![SerializedMutation::Spawn {
            entity: 0,
            components: vec![(0, pos(1.0, 2.0)), (1, health(100))],
        }],
        0,
    );
    let codecs_b = codecs(&["health", "pos"]);
    let log = Log::try_open(log.disk, codecs_b.clone(), default_config()).unwrap();
    let mut world = World::new(&["health", "pos"]);
    log.replay_from(0, &mut world, &codecs_b).unwrap();
    assert_eq!(world.values("pos"), vec![pos(1.0, 2.0)]);
    assert_eq!(world.values("health"), vec![health(100)]);
}

#[test]
fn wal_cross_process_insert_and_remove_remapped() {
    let mut log = Log::create(codecs(&["pos", "health"]), default_config());
    log.append(
        vec![SerializedMutation::Spawn { entity: 0, components: vec![(0, pos(1.0, 2.0))] }],
        0,
    );
    log.append(
        vec![
            SerializedMutation::Insert { entity: 0, component_id: 1, data: health(50) },
            SerializedMutation::Remove { entity: 0, component_id: 0 },
        ],
        1,
    );
    let codecs_b = codecs(&["health", "pos"]);
    let log = Log::try_open(log.disk, codecs_b.clone(), default_config()).unwrap();
    let mut world = World::new(&["health", "pos"]);
    log.replay_from(0, &mut world, &codecs_b).unwrap();
    assert_eq!(world.values("health"), vec![health(50)]);
    assert!(world.values("pos").is_empty());
}

#[test]
fn create_segmented_wal() {
    let log = Log::create(codecs(&["pos"]), small_config());
    assert_eq!(log.wal.next_seq(), 0);
    assert_eq!(log.stats().segment_count, 1);
    assert_eq!(log.stats().oldest_seq, Some(0));
}

#[test]
fn open_empty_dir_errors() {
    let result = Log::try_open(Disk::default(), codecs(&[]), default_config());
    assert!(result.is_err());
}

#[test]
fn append_rolls_to_new_segment() {
    let mut log = Log::create(codecs(&["pos"]), small_config());
    log.spawns(20);
    assert_eq!(log.wal.next_seq(), 20);
    assert!(log.stats().segment_count > 1, "should have rolled to multiple segments");
    for image in log.images() {
        assert!(matches!(image.frames[0].entry, Ok(WalEntry::Schema(_))));
        assert_eq!(image.frames[0].frame.offset, 4);
    }
}

#[test]
fn open_after_rollover_recovers_next_seq() {
    let mut log = Log::create(codecs(&["pos"]), small_config());
    log.spawns(10);
    assert_eq!(log.reopen(small_config()).wal.next_seq(), 10);
}

#[test]
fn replay_across_segments() {
    let codecs = codecs(&["pos"]);
    let mut log = Log::create(codecs.clone(), small_config());
    log.spawns(10);
    let mut world = World::new(&["pos"]);
    assert_eq!(log.replay_from(0, &mut world, &codecs).unwrap(), 9);
    assert_eq!(world.values("pos").len(), 10);
}

#[test]
fn delete_segments_before_removes_old() {
    let mut log = Log::create(codecs(&["pos"]), small_config());
    log.spawns(20);
    let before = log.stats().segment_count;
    assert!(before > 2);
    let deleted = log.delete_before(10);
    assert!(deleted > 0);
    assert_eq!(log.stats().segment_count, before - deleted);
    assert!(log.stats().oldest_seq.is_some());
}

#[test]
fn wal_stats_reflects_state() {
    let config = WalConfig {
        max_segment_bytes: 64 * 1024 * 1024,
        max_bytes_between_checkpoints: Some(1024),
    };
    let mut log = Log::create(codecs(&["pos"]), config);
    let s0 = log.stats();
    assert_eq!(s0.next_seq, 0);
    assert_eq!(s0.segment_count, 1);
    assert_eq!(s0.oldest_seq, Some(0));
    assert_eq!(s0.bytes_since_checkpoint, 0);
    assert_eq!(s0.last_checkpoint_seq, None);
    assert!(!s0.checkpoint_needed);
    log.spawns(1);
    let s1 = log.stats();
    assert_eq!(s1.next_seq, 1);
    assert!(s1.bytes_since_checkpoint > 0);
}

#[test]
fn checkpoint_needed_when_disabled() {
    let log = Log::create(codecs(&["pos"]), default_config());
    assert!(!log.wal.checkpoint_needed());
    assert_eq!(log.wal.last_checkpoint_seq(), None);
}

fn eager_config(max: usize) -> WalConfig {
    WalConfig {
        max_segment_bytes: 64 * 1024 * 1024,
        max_bytes_between_checkpoints: Some(max),
    }
}

#[test]
fn checkpoint_needed_after_threshold() {
    let mut log = Log::create(codecs(&["pos"]), eager_config(128));
    assert!(!log.wal.checkpoint_needed());
    log.spawns(10);
    assert!(log.wal.checkpoint_needed());
}

#[test]
fn checkpoint_is_needed_only_past_the_threshold() {
    let frame = 16 + encode(&WalEntry::Mutations(WalRecord {
        seq: 0,
        mutations: spawn(0, 0),
        tick_after: 0,
    }))
    .len();
    let mut log = Log::create(codecs(&["pos"]), eager_config(frame));
    log.spawns(1);
    assert_eq!(log.stats().bytes_since_checkpoint, frame as u64);
    assert!(!log.wal.checkpoint_needed());
    log.spawns(1);
    assert!(log.wal.checkpoint_needed());
}

#[test]
fn segment_rolls_only_past_its_budget() {
    let frame = 16 + encode(&mutation(0)).len();
    let header = Log::create(codecs(&["pos"]), default_config()).disk.file(0).len();
    let config = WalConfig { max_segment_bytes: header + frame, ..default_config() };
    let mut log = Log::create(codecs(&["pos"]), config);
    log.append(Vec::new(), 0);
    assert_eq!(log.stats().segment_count, 1);
    log.append(Vec::new(), 1);
    assert_eq!(log.stats().segment_count, 2);
    assert_eq!(log.wal.active_start_seq(), 2);
}

#[test]
fn acknowledge_flush_writes_checkpoint_and_resets() {
    let mut log = Log::create(codecs(&["pos"]), eager_config(128));
    log.spawns(10);
    assert!(log.wal.checkpoint_needed());
    let seq = log.wal.next_seq();
    log.acknowledge(seq).unwrap();
    assert_eq!(log.wal.last_checkpoint_seq(), Some(seq));
    assert!(!log.wal.checkpoint_needed());
}

#[test]
fn acknowledge_flush_survives_reopen() {
    let mut log = Log::create(codecs(&["pos"]), eager_config(1024));
    log.spawns(1);
    let seq = log.wal.next_seq();
    log.acknowledge(seq).unwrap();
    let log = log.reopen(eager_config(1024));
    assert_eq!(log.wal.last_checkpoint_seq(), Some(1));
    assert!(!log.wal.checkpoint_needed());
}

#[test]
fn checkpoint_recovered_from_sealed_segment() {
    let config = WalConfig { max_segment_bytes: 128, max_bytes_between_checkpoints: Some(4096) };
    let mut log = Log::create(codecs(&["pos"]), config);
    log.spawns(3);
    let seq = log.wal.next_seq();
    log.acknowledge(seq).unwrap();
    assert_eq!(log.wal.last_checkpoint_seq(), Some(seq));
    log.spawns(17);
    assert!(log.stats().segment_count > 1, "must have rolled over");
    let log = log.reopen(config);
    assert_eq!(log.wal.last_checkpoint_seq(), Some(seq));
    assert!(log.stats().bytes_since_checkpoint > 0);
}

#[test]
fn replay_skips_checkpoint_entries() {
    let codecs = codecs(&["pos"]);
    let mut log = Log::create(codecs.clone(), default_config());
    log.spawns(3);
    log.acknowledge(3).unwrap();
    log.spawns(2);
    let mut world = World::new(&["pos"]);
    assert_eq!(log.replay_from(0, &mut world, &codecs).unwrap(), 4);
    assert_eq!(world.values("pos").len(), 5);
}

#[test]
fn delete_segments_preserves_active() {
    let mut log = Log::create(codecs(&["pos"]), small_config());
    log.spawns(10);
    log.delete_before(u64::MAX);
    assert!(log.stats().segment_count >= 1);
    log.spawns(1);
    assert_eq!(log.wal.next_seq(), 11);
}

#[test]
fn open_after_truncate_all_does_not_reuse_seq() {
    let mut log = Log::create(codecs(&["pos"]), small_config());
    log.spawns(20);
    assert!(log.stats().segment_count > 1);
    log.delete_before(u64::MAX);
    let last_seq = log.wal.next_seq();
    assert!(log.reopen(small_config()).wal.next_seq() >= last_seq);
}

#[test]
fn open_rewrites_schema_after_torn_preamble() {
    let mut log = Log::create(codecs(&["pos", "health"]), small_config());
    log.spawns(10);
    assert!(log.stats().segment_count > 1);
    log.disk.files.last_mut().unwrap().1.clear();
    let mut log = log.reopen(small_config());
    log.append(
        vec![SerializedMutation::Spawn { entity: 99, components: vec![(0, pos(99.0, 99.0))] }],
        10,
    );
    let codecs_b = codecs(&["health", "pos"]);
    let log = Log::try_open(log.disk, codecs_b.clone(), small_config()).unwrap();
    let mut world = World::new(&["health", "pos"]);
    log.replay_from(0, &mut world, &codecs_b).unwrap();
    assert!(
        world.values("pos").contains(&pos(99.0, 99.0)),
        "post-recovery record should be replayable with remap"
    );
}

#[test]
fn sparse_insert_wal_round_trip() {
    let codecs = codecs(&["pos", "health"]);
    let mut log = Log::create(codecs.clone(), default_config());
    let seq = log.append(
        vec![
            SerializedMutation::Spawn { entity: 0, components: vec![(0, pos(1.0, 2.0))] },
            SerializedMutation::SparseInsert { entity: 0, component_id: 1, data: health(100) },
        ],
        0,
    );
    assert_eq!(seq, 0);
    let log = log.reopen(default_config());
    let mut world = World::new(&["pos", "health"]);
    log.replay_from(0, &mut world, &codecs).unwrap();
    assert_eq!(world.values("health"), vec![health(100)]);
}

#[test]
fn sparse_remove_wal_round_trip() {
    let codecs = codecs(&["pos", "health"]);
    let mut log = Log::create(codecs.clone(), default_config());
    log.append(vec![SerializedMutation::SparseRemove { entity: 0, component_id: 1 }], 0);
    let log = log.reopen(default_config());
    let mut world = World::new(&["pos", "health"]);
    world.rows.insert(0, BTreeMap::from([(0, pos(1.0, 2.0)), (1, health(50))]));
    log.replay_from(0, &mut world, &codecs).unwrap();
    assert!(world.values("health").is_empty());
}

#[test]
fn sparse_insert_overwrite_wal_round_trip() {
    let codecs = codecs(&["pos", "health"]);
    let mut log = Log::create(codecs.clone(), default_config());
    log.append(
        vec![SerializedMutation::SparseInsert { entity: 0, component_id: 1, data: health(999) }],
        0,
    );
    let log = log.reopen(default_config());
    let mut world = World::new(&["pos", "health"]);
    world.rows.insert(0, BTreeMap::from([(0, pos(1.0, 2.0)), (1, health(10))]));
    log.replay_from(0, &mut world, &codecs).unwrap();
    assert_eq!(world.values("health"), vec![health(999)]);
}

#[test]
fn wal_replays_heap_component() {
    let codecs = codecs(&["note"]);
    let mut log = Log::create(codecs.clone(), default_config());
    let note = b"wal survives".to_vec();
    let seq = log.append(
        vec![SerializedMutation::Spawn { entity: 0, components: vec![(0, note.clone())] }],
        0,
    );
    assert_eq!(seq, 0);
    let log = log.reopen(default_config());
    let mut world = World::new(&["note"]);
    log.replay_from(0, &mut world, &codecs).unwrap();
    assert_eq!(world.values("note"), vec![note]);
}

#[test]
fn checksum_mismatch_detected_on_open() {
    let mut log = Log::create(codecs(&["health"]), default_config());
    log.append(Vec::new(), 0);
    log.append(Vec::new(), 0);
    let before = log.disk.file(0).len();
    log.disk.file(0).extend_from_slice(&32u32.to_le_bytes());
    log.disk.file(0).extend_from_slice(&0xDEADBEEFu32.to_le_bytes());
    log.disk.file(0).extend_from_slice(&[0xDE; 32]);
    assert!(log.disk.file(0).len() > before);
    let mut log = log.reopen(default_config());
    assert_eq!(log.wal.next_seq(), 2);
    assert_eq!(log.disk.file(0).len(), before, "corrupt frame should be truncated");
}

#[test]
fn whole_frame_with_wrong_checksum_is_cut_off() {
    let mut log = Log::create(codecs(&["health"]), default_config());
    log.append(Vec::new(), 0);
    let before = log.disk.file(0).len();
    let mut frame = write_frame(&encode(&mutation(1)), 0).unwrap();
    frame[4] ^= 1;
    log.disk.file(0).extend_from_slice(&frame);
    let mut log = log.reopen(default_config());
    assert_eq!(log.wal.next_seq(), 1);
    assert_eq!(log.disk.file(0).len(), before);
}

#[test]
fn checksum_mismatch_detected_on_replay() {
    let codecs = codecs(&["health"]);
    let mut log = Log::create(codecs.clone(), default_config());
    log.append(Vec::new(), 0);
    let len = log.disk.file(0).len();
    log.disk.file(0).extend_from_slice(&24u32.to_le_bytes());
    log.disk.file(0).extend_from_slice(&0xCAFEBABEu32.to_le_bytes());
    log.disk.file(0).extend_from_slice(&[0xAB; 24]);
    let mut log = log.reopen(default_config());
    let mut world = World::default();
    assert_eq!(log.replay_from(0, &mut world, &codecs).unwrap(), 0);
    assert_eq!(log.disk.file(0).len(), len);
}

#[test]
fn valid_frames_pass_checksum() {
    let codecs = codecs(&["pos"]);
    let mut log = Log::create(codecs.clone(), default_config());
    log.spawns(5);
    let mut world = World::new(&["pos"]);
    assert_eq!(log.replay_from(0, &mut world, &codecs).unwrap(), 4);
    assert_eq!(world.values("pos").len(), 5);
}

#[test]
fn rollover_many_appends_does_not_collide() {
    let config = WalConfig { max_segment_bytes: 512, ..default_config() };
    let mut log = Log::create(codecs(&["pos"]), config);
    log.spawns(64);
    let starts = log.disk.starts();
    assert!(starts.windows(2).all(|w| w[0] < w[1]));
    assert_eq!(log.stats().roll_failures, 0);
}

#[test]
fn open_resumes_view_across_segments() {
    let codecs = codecs(&["pos"]);
    let config = WalConfig { max_segment_bytes: 256, ..default_config() };
    let mut log = Log::create(codecs.clone(), config);
    log.spawns(1);
    assert_eq!(log.wal.views.bump(), 1);
    log.spawns(1);
    let mut log = log.reopen(default_config());
    assert_eq!(log.wal.views.current(), 1, "view must resume from the log max");
    log.spawns(1);
    let log = log.reopen(default_config());
    let mut world = World::new(&["pos"]);
    log.replay_from(0, &mut world, &codecs).unwrap();
    assert_eq!(world.rows.keys().copied().collect::<Vec<u64>>(), vec![0, 1, 2]);
}

#[test]
fn open_truncates_stale_view_tail_in_active_segment() {
    let mut log = Log::create(codecs(&["pos"]), default_config());
    let seq_a = log.append(spawn(0, 1), 0);
    assert_eq!(log.wal.views.bump(), 1);
    let seq_b = log.append(spawn(1, 2), 1);
    log.forge(0, insert(seq_b + 1, 2, 0, 0, pos(3.0, 3.0)), 0);
    let mut log = log.reopen(default_config());
    let seq_d = log.append(spawn(2, 3), 2);
    assert_eq!(seq_d, seq_b + 1);
    let mut cursor = WalCursor::open(&log.images(), 0).unwrap();
    let mut seen = Vec::new();
    loop {
        let batch = read(&mut cursor, &log, 10);
        if batch.records.is_empty() {
            break;
        }
        seen.extend(seqs(&batch));
    }
    assert_eq!(seen, vec![seq_a, seq_b, seq_d], "stale record must never ship");
}

#[test]
fn cursor_seeks_seed_view_state() {
    let mut log = Log::create(codecs(&["pos"]), default_config());
    let seq_a = log.append(spawn(0, 1), 0);
    assert_eq!(log.wal.views.bump(), 1);
    let seq_b = log.append(spawn(1, 2), 1);
    log.forge(0, insert(seq_b + 1, 2, 0, 0, pos(3.0, 3.0)), 0);
    let mut cursor = WalCursor::open(&log.images(), seq_a + 1).unwrap();
    let batch = read(&mut cursor, &log, 10);
    assert_eq!(seqs(&batch), vec![seq_b]);
}

#[test]
fn cursor_checkpoint_frames_raise_view_fence() {
    let mut log = Log::create(codecs(&["pos"]), default_config());
    let seq_a = log.append(spawn(0, 1), 0);
    assert_eq!(log.wal.views.bump(), 1);
    log.acknowledge(seq_a + 1).unwrap();
    log.forge(0, insert(seq_a + 2, 2, 0, 0, pos(3.0, 3.0)), 0);
    let mut cursor = WalCursor::open(&log.images(), seq_a + 1).unwrap();
    let batch = read(&mut cursor, &log, 10);
    assert!(!seqs(&batch).contains(&(seq_a + 2)));
}

#[test]
fn stale_view_frames_dropped_by_replay() {
    let codecs = codecs(&["pos"]);
    let mut log = Log::create(codecs.clone(), default_config());
    assert_eq!(log.wal.views.current(), 0);
    log.append(spawn(0, 1), 0);
    assert_eq!(log.wal.views.bump(), 1);
    let seq_b = log.append(spawn(1, 2), 1);
    let late = WalRecord { seq: seq_b + 1, mutations: spawn(2, 3), tick_after: 2 };
    log.forge(0, WalEntry::Mutations(late), 0);
    let mut unopened = World::new(&["pos"]);
    assert_eq!(log.replay_from(0, &mut unopened, &codecs).unwrap(), seq_b);
    let log = log.reopen(default_config());
    let mut world = World::new(&["pos"]);
    assert_eq!(log.replay_from(0, &mut world, &codecs).unwrap(), seq_b);
    assert!(world.rows.contains_key(&0));
    assert!(world.rows.contains_key(&1));
    assert!(!world.rows.contains_key(&2));
    assert_eq!(world, unopened);
}

fn legacy_disk() -> Disk {
    let mut bytes = 100u32.to_le_bytes().to_vec();
    bytes.extend_from_slice(&[0; 100]);
    Disk { files: vec![(0, bytes)] }
}

#[test]
fn legacy_v1_segment_detected_on_open() {
    let message = match Log::try_open(legacy_disk(), codecs(&[]), default_config()) {
        Err(e) => e.message(),
        Ok(_) => panic!("legacy segment should produce an error"),
    };
    assert!(message.contains("legacy v1 format"), "{message}");
}

#[test]
fn legacy_v1_segment_detected_on_replay() {
    let codecs = codecs(&["pos"]);
    let mut log = Log::create(codecs.clone(), small_config());
    log.spawns(20);
    assert!(log.stats().segment_count > 1);
    log.disk.file(0)[..4].copy_from_slice(&50u32.to_le_bytes());
    let mut world = World::new(&["pos"]);
    let message = log.replay_from(0, &mut world, &codecs).unwrap_err().message();
    assert!(message.contains("legacy v1 format"), "{message}");
}

#[test]
fn legacy_v1_segment_detected_on_cursor_open() {
    let message = match WalCursor::open(&legacy_disk().images(&codecs(&[])), 0) {
        Err(e) => e.message(),
        Ok(_) => panic!("cursor should produce an error for legacy segment"),
    };
    assert!(message.contains("legacy v1 format"), "{message}");
}

#[test]
fn replay_insert_then_despawn_preserves_order() {
    let codecs = codecs(&["pos", "health"]);
    let mut log = Log::create(codecs.clone(), default_config());
    log.append(
        vec![SerializedMutation::Spawn { entity: 0, components: vec![(0, pos(1.0, 2.0))] }],
        0,
    );
    log.append(
        vec![
            SerializedMutation::Insert { entity: 0, component_id: 1, data: health(99) },
            SerializedMutation::Despawn { entity: 0 },
        ],
        1,
    );
    let log = log.reopen(default_config());
    let mut world = World::new(&["pos", "health"]);
    log.replay_from(0, &mut world, &codecs).unwrap();
    assert!(world.rows.is_empty());
}

#[test]
fn replay_insert_then_remove_preserves_order() {
    let codecs = codecs(&["pos", "health"]);
    let mut log = Log::create(codecs.clone(), default_config());
    log.append(
        vec![SerializedMutation::Spawn {
            entity: 0,
            components: vec![(0, pos(1.0, 2.0)), (1, health(10))],
        }],
        0,
    );
    log.append(
        vec![
            SerializedMutation::Insert { entity: 0, component_id: 1, data: health(99) },
            SerializedMutation::Remove { entity: 0, component_id: 1 },
        ],
        1,
    );
    let log = log.reopen(default_config());
    let mut world = World::new(&["pos", "health"]);
    log.replay_from(0, &mut world, &codecs).unwrap();
    assert!(world.rows.contains_key(&0));
    assert!(world.values("health").is_empty());
    assert_eq!(world.values("pos"), vec![pos(1.0, 2.0)]);
}

#[test]
fn cursor_seeds_fence_from_earlier_segments() {
    let config = WalConfig { max_segment_bytes: 256, ..default_config() };
    let mut log = Log::create(codecs(&["pos"]), config);
    log.spawns(6);
    assert_eq!(log.wal.views.bump(), 1);
    log.acknowledge(6).unwrap();
    let last_start = *log.disk.starts().last().unwrap();
    assert!(last_start > 0);
    log.forge(last_start, insert(last_start, 6, 0, 0, pos(4.0, 4.0)), 0);
    let mut cursor = WalCursor::open(&log.images(), last_start).unwrap();
    let batch = read(&mut cursor, &log, 10);
    assert!(!seqs(&batch).contains(&last_start));
}

#[test]
fn cursor_fence_reaches_back_over_sealed_segments() {
    let mut log = Log::create(codecs(&["pos"]), default_config());
    log.append(spawn(0, 1), 0);
    log.wal.views = Views::with_current(5);
    log.acknowledge(1).unwrap();
    log.wal.views = Views::with_current(0);
    log.roll();
    log.forge(1, mutation(1), 4);
    log.forge(1, mutation(2), 5);
    let mut cursor = WalCursor::open(&log.images(), 1).unwrap();
    assert_eq!(seqs(&read(&mut cursor, &log, 10)), vec![2]);
}

#[test]
fn cursor_reads_from_seq_zero() {
    let mut log = Log::create(codecs(&["pos"]), default_config());
    log.spawns(3);
    let mut cursor = WalCursor::open(&log.images(), 0).unwrap();
    let batch = read(&mut cursor, &log, 100);
    assert_eq!(batch.records.len(), 3);
    assert_eq!(batch.records[0].seq, 0);
    assert_eq!(batch.records[1].seq, 1);
    assert_eq!(batch.records[2].seq, 2);
    assert!(read(&mut cursor, &log, 100).records.is_empty());
    assert_eq!(batch.schema.components.len(), 1);
    assert_eq!(batch.schema.components[0].name, "pos");
}

#[test]
fn cursor_reads_from_mid_seq() {
    let mut log = Log::create(codecs(&["pos"]), default_config());
    log.spawns(5);
    let mut cursor = WalCursor::open(&log.images(), 3).unwrap();
    let batch = read(&mut cursor, &log, 100);
    assert_eq!(seqs(&batch), vec![3, 4]);
    assert!(read(&mut cursor, &log, 100).records.is_empty());
}

#[test]
fn cursor_at_end_returns_empty_batch() {
    let mut log = Log::create(codecs(&["pos"]), default_config());
    log.spawns(2);
    let mut cursor = WalCursor::open(&log.images(), 0).unwrap();
    assert_eq!(read(&mut cursor, &log, 100).records.len(), 2);
    assert!(read(&mut cursor, &log, 100).records.is_empty());
}

#[test]
fn cursor_respects_batch_limit() {
    let mut log = Log::create(codecs(&["pos"]), default_config());
    log.spawns(5);
    let mut cursor = WalCursor::open(&log.images(), 0).unwrap();
    assert_eq!(seqs(&read(&mut cursor, &log, 2)), vec![0, 1]);
    assert_eq!(cursor.next_seq(), 2);
    assert_eq!(seqs(&read(&mut cursor, &log, 2)), vec![2, 3]);
    assert_eq!(seqs(&read(&mut cursor, &log, 2)), vec![4]);
}

#[test]
fn two_batches_read_as_one() {
    let mut log = Log::create(codecs(&["pos"]), small_config());
    log.spawns(6);
    let mut whole = WalCursor::open(&log.images(), 1).unwrap();
    let all = read(&mut whole, &log, 5);
    for few in 0..=5 {
        let mut cursor = WalCursor::open(&log.images(), 1).unwrap();
        let mut seen = seqs(&read(&mut cursor, &log, few));
        seen.extend(seqs(&read(&mut cursor, &log, 5 - few)));
        assert_eq!(seen, seqs(&all));
        assert_eq!(cursor.next_seq(), whole.next_seq());
    }
}

#[test]
fn appended_record_is_served() {
    let mut log = Log::create(codecs(&["pos"]), small_config());
    for tick in 0..6 {
        if tick == 3 {
            log.wal.views.bump();
            log.acknowledge(3).unwrap();
        }
        let seq = log.append(spawn(tick, tick as u8), tick);
        let range = log.wal.records_from(seq, limits(), &log.images()).unwrap();
        assert_eq!((range.from_seq, range.next_seq), (seq, seq + 1));
        let frame = RawFrame::read_bytes(&range.runs[0].frames, 0).unwrap();
        let record = WalRecord { seq, mutations: spawn(tick, tick as u8), tick_after: tick };
        assert_eq!(decode(frame.payload_bytes()), Ok(WalEntry::Mutations(record)));
    }
}

#[test]
fn cursor_follows_a_growing_log() {
    let mut log = Log::create(codecs(&["pos"]), small_config());
    log.spawns(1);
    let mut cursor = WalCursor::open(&log.images(), 0).unwrap();
    assert_eq!(seqs(&read(&mut cursor, &log, 10)), vec![0]);
    assert!(read(&mut cursor, &log, 10).records.is_empty());
    log.spawns(3);
    assert_eq!(seqs(&read(&mut cursor, &log, 10)), vec![1, 2, 3]);
}

#[test]
fn cursor_behind_error_display() {
    let err = WalError::CursorBehind { requested: 0, oldest: 5 };
    let message = err.message();
    assert!(message.contains("cursor behind"));
    assert!(message.contains('0'));
    assert!(message.contains('5'));
}

#[test]
fn cursor_skips_checkpoint_entries() {
    let mut log = Log::create(codecs(&["pos"]), default_config());
    log.spawns(3);
    log.acknowledge(3).unwrap();
    log.spawns(2);
    let mut cursor = WalCursor::open(&log.images(), 0).unwrap();
    let batch = read(&mut cursor, &log, 100);
    assert_eq!(batch.records.len(), 5);
    assert_eq!(batch.records[0].seq, 0);
    assert_eq!(batch.records[4].seq, 4);
}

#[test]
fn cursor_reads_across_segment_boundaries() {
    let mut log = Log::create(codecs(&["pos"]), small_config());
    log.spawns(20);
    assert!(log.stats().segment_count > 1);
    let mut cursor = WalCursor::open(&log.images(), 0).unwrap();
    let batch = read(&mut cursor, &log, 100);
    assert_eq!(batch.records.len(), 20);
    assert_eq!(batch.records[0].seq, 0);
    assert_eq!(batch.records[19].seq, 19);
    assert!(read(&mut cursor, &log, 100).records.is_empty());
}

#[test]
fn cursor_behind_after_segment_deletion() {
    let mut log = Log::create(codecs(&["pos"]), small_config());
    log.spawns(20);
    assert!(log.stats().segment_count > 2);
    log.delete_before(15);
    let result = WalCursor::open(&log.images(), 0);
    assert!(matches!(result, Err(WalError::CursorBehind { .. })));
}

#[test]
fn cursor_without_segments_is_refused() {
    assert_eq!(
        WalCursor::open(&Vec::new(), 0).err().unwrap(),
        WalError::Format(FormatIssue::Text("no WAL segments found"))
    );
}

/// A log whose second record is numbered `seq`, in one segment.
fn numbered(seq: u64) -> Log {
    let mut log = Log::create(codecs(&["pos"]), default_config());
    log.append(Vec::new(), 0);
    let entry = WalEntry::Mutations(WalRecord { seq, mutations: Vec::new(), tick_after: 1 });
    let frame = write_frame(&encode(&entry), 0).unwrap();
    log.disk.file(0).extend_from_slice(&frame);
    log
}

#[test]
fn cursor_needs_a_next_number_only_for_what_it_hands_out() {
    let log = numbered(u64::MAX);
    let images = log.images();
    let mut cursor = WalCursor::open(&images, 0).unwrap();
    let place = cursor.locate(&images).unwrap();
    assert!(!cursor.counts_on(2, &images, place));
    assert!(cursor.counts_on(1, &images, place));
    assert_eq!(seqs(&cursor.next_batch(1, &images, place).unwrap()), vec![0]);
    assert_eq!(cursor.next_seq(), 1);
    let log = numbered(u64::MAX - 1);
    let images = log.images();
    let mut cursor = WalCursor::open(&images, 0).unwrap();
    let place = cursor.locate(&images).unwrap();
    assert!(cursor.counts_on(2, &images, place));
    assert_eq!(seqs(&cursor.next_batch(2, &images, place).unwrap()), vec![0, u64::MAX - 1]);
    assert_eq!(cursor.next_seq(), u64::MAX);
}

#[test]
fn opening_needs_a_number_after_the_last_record_only() {
    assert!(leaves_next_seq(&Vec::new()));
    assert!(!leaves_next_seq(&numbered(u64::MAX).images()));
    let mut log = numbered(u64::MAX);
    let entry = WalEntry::Mutations(WalRecord { seq: 6, mutations: Vec::new(), tick_after: 2 });
    let frame = write_frame(&encode(&entry), 0).unwrap();
    log.disk.file(0).extend_from_slice(&frame);
    assert!(leaves_next_seq(&log.images()));
    assert_eq!(log.reopen(default_config()).wal.next_seq(), 7);
}

#[test]
fn cursor_past_the_end_of_a_cut_file_reads_on() {
    let mut log = Log::create(codecs(&["pos"]), default_config());
    log.spawns(2);
    let images = log.images();
    let mut cursor = WalCursor::open(&images, 0).unwrap();
    assert_eq!(seqs(&read(&mut cursor, &log, 10)), vec![0, 1]);
    let cut = log.disk.file(0).len() - 1;
    log.disk.file(0).truncate(cut);
    assert_eq!(cursor.locate(&log.images()), Some((0, 2)));
    assert!(read(&mut cursor, &log, 10).records.is_empty());
    let roll = log.roll_io(2);
    log.wal.roll_segment(roll).unwrap();
    log.spawns(1);
    assert_eq!(seqs(&read(&mut cursor, &log, 10)), vec![2]);
}

#[test]
fn any_run_of_calls_is_given_back_on_reopening() {
    let mut log = Log::create(codecs(&["pos"]), default_config());
    log.spawns(2);
    log.wal.bump_view();
    log.acknowledge(1).unwrap();
    log.spawns(1);
    let roll = log.roll_io(3);
    log.wal.roll_segment(roll).unwrap();
    log.spawns(2);
    let next_seq = log.wal.next_seq();
    let before = log.wal.stats(&log.disk.starts());
    let whole = WalRangeLimits { max_records: 10, max_bytes: 4096, max_control_frames: 10 };
    let ranges: Vec<WalFrameRange> = (0..=next_seq)
        .map(|from| log.wal.records_from(from, whole, &log.images()).unwrap())
        .collect();
    assert_eq!(ranges[0].next_seq, 5);
    let log = log.reopen(default_config());
    assert_eq!(log.wal.next_seq(), next_seq);
    assert_eq!(log.wal.last_checkpoint_seq(), Some(1));
    assert_eq!(log.wal.stats(&log.disk.starts()), before);
    for (from, range) in ranges.iter().enumerate() {
        let again = log.wal.records_from(from as u64, whole, &log.images()).unwrap();
        assert_eq!(again, *range);
    }
}

#[test]
fn leftover_rollover_file_is_taken_up() {
    let mut log = Log::create(codecs(&["pos"]), default_config());
    log.spawns(2);
    log.acknowledge(2).unwrap();
    log.spawns(1);
    let since = log.wal.stats(&log.disk.starts()).bytes_since_checkpoint;
    let left = log.roll_io(3);
    let failed = RollIo {
        prepared: Err(WalError::Io(broken())),
        rollback: CleanupIo { removed: Err(broken()), synced: Ok(()) },
        ..left
    };
    assert!(log.wal.roll_segment(failed).is_err());
    assert_eq!(log.wal.active_start_seq(), 0);
    let log = log.reopen(default_config());
    assert_eq!(log.wal.active_start_seq(), 3);
    assert_eq!(log.wal.next_seq(), 3);
    assert_eq!(log.wal.last_checkpoint_seq(), Some(2));
    assert_eq!(log.wal.stats(&log.disk.starts()).bytes_since_checkpoint, since);
}

#[test]
fn any_number_of_pages_join() {
    let mut log = Log::create(codecs(&["pos"]), small_config());
    log.spawns(7);
    let images = log.images();
    let mut from = 0;
    let mut pages = Vec::new();
    for max_records in [1, 3, 2, 1] {
        let limits = WalRangeLimits { max_records, max_bytes: 4096, max_control_frames: 20 };
        let page = log.wal.records_from(from, limits, &images).unwrap();
        assert_eq!(page.from_seq, from);
        from = page.next_seq;
        for run in &page.runs {
            pages.extend_from_slice(&run.frames);
        }
    }
    assert_eq!(from, 7);
    let limits = WalRangeLimits { max_records: 7, max_bytes: 4096, max_control_frames: 20 };
    let whole = log.wal.records_from(0, limits, &images).unwrap();
    let mut bytes = Vec::new();
    for run in &whole.runs {
        bytes.extend_from_slice(&run.frames);
    }
    assert_eq!(pages, bytes);
}

#[test]
fn replay_reports_the_highest_view_of_any_frame() {
    let mut log = Log::create(codecs(&["pos"]), default_config());
    log.wal.bump_view();
    log.spawns(1);
    log.wal.bump_view();
    log.acknowledge(1).unwrap();
    let world = World::new(&["pos"]);
    let plan = log.wal.replay(&log.images(), &world.shape(), &log.codecs).unwrap();
    assert_eq!((plan.records.len(), plan.max_view), (1, 2));
    let none = log.wal.replay(&Vec::new(), &world.shape(), &log.codecs).unwrap();
    assert_eq!(none.max_view, 0);
}

#[test]
fn lost_place_is_not_located() {
    let mut log = Log::create(codecs(&["pos"]), small_config());
    log.spawns(2);
    let cursor = WalCursor::open(&log.images(), 0).unwrap();
    log.disk.files.remove(0);
    assert!(cursor.locate(&log.images()).is_none());
}

#[test]
fn records_from_mid_segment_includes_schema_context() {
    let mut log = Log::create(codecs(&["counter"]), default_config());
    for tick in 0..3 {
        log.append(Vec::new(), tick);
    }
    let images = log.images();
    let schema_end = images[0].frames[0].frame.next_offset() as usize;
    let first_end = images[0].frames[1].frame.next_offset() as usize;
    let range = log.wal.records_from(1, limits(), &images).unwrap();
    assert_eq!((range.from_seq, range.next_seq, range.seed_view), (1, 3, 0));
    assert_eq!(range.runs.len(), 1);
    assert_eq!(range.runs[0].segment_start_seq, 0);
    let bytes = log.disk.file(0);
    assert_eq!(range.runs[0].schema_frame, bytes[4..schema_end]);
    assert_eq!(range.runs[0].frames, bytes[first_end..]);
}

#[test]
fn records_from_resume_preserves_fence_context() {
    let mut log = Log::create(codecs(&[]), default_config());
    log.wal.views = Views::with_current(2);
    log.append_entry(mutation(0)).unwrap();
    log.wal.views = Views::with_current(4);
    log.acknowledge(1).unwrap();
    log.wal.views = Views::with_current(5);
    log.append_entry(mutation(1)).unwrap();
    log.wal.views = Views::with_current(9);
    log.append_entry(mutation(2)).unwrap();
    let images = log.images();
    let all = log.wal.records_from(0, limits(), &images).unwrap();
    assert_eq!(all.seed_view, 0); // The later view 9 cannot fence sequence 0.
    let resumed = log.wal.records_from(1, limits(), &images).unwrap();
    assert_eq!(resumed.seed_view, 4);
    assert_eq!(resumed.next_seq, 3);
    let mut checkpoints = 0;
    let mut at = 0;
    while let Some(frame) = RawFrame::read_from(&all.runs[0].frames, at).unwrap() {
        at = frame.next_offset() as usize;
        if let Ok(WalEntry::Checkpoint { .. }) = decode(frame.payload_bytes()) {
            checkpoints += 1;
        }
    }
    assert_eq!(checkpoints, 1);
    let tail = log.wal.records_from(3, limits(), &images).unwrap();
    assert!(tail.runs.is_empty());
    assert_eq!((tail.next_seq, tail.seed_view), (3, 9));
    // A control alone advances the context without taking a sequence number.
    log.wal.views = Views::with_current(12);
    log.acknowledge(3).unwrap();
    let images = log.images();
    assert_eq!(log.wal.records_from(3, limits(), &images).unwrap().seed_view, 12);
    assert_eq!(log.wal.records_from(1, limits(), &images).unwrap().seed_view, 4);

    // A stale schema remains usable in a sealed run, but an active stale
    // schema cannot be published.
    let mut log = Log::create(codecs(&[]), default_config());
    log.wal.views = Views::with_current(2);
    log.append_entry(mutation(0)).unwrap();
    log.wal.views = Views::with_current(0);
    log.roll();
    log.wal.views = Views::with_current(2);
    log.append_entry(mutation(1)).unwrap();
    assert!(matches!(
        log.wal.records_from(1, limits(), &log.images()),
        Err(WalError::UnresolvedHistory { .. })
    ));
    log.roll();
    let resumed = log.wal.records_from(1, limits(), &log.images()).unwrap();
    assert_eq!(resumed.seed_view, 2);
    assert_eq!(resumed.runs.len(), 1);
    assert_eq!(resumed.runs[0].schema_frame[8..16], 0u64.to_le_bytes());
}

#[test]
fn records_from_excludes_unsynced_frames() {
    let mut log = Log::create(codecs(&[]), default_config());
    log.wal.views = Views::with_current(1);
    let payload = encode(&mutation(0));
    let frame = log.wal.entry_frame(&payload).unwrap();
    log.disk.file(0).extend_from_slice(&frame);
    let io = AppendIo { cleanup: fine(), write: Ok(()), sync: Err(broken()), roll: Log::no_roll() };
    assert_eq!(log.wal.append(Ok(payload), io), Err(WalError::Io(broken())));
    assert_eq!(log.wal.next_seq(), 1);
    assert_eq!(log.wal.durable_seq(), 0);
    let images = log.images();
    assert_eq!(log.wal.records_from(0, limits(), &images).unwrap().next_seq, 0);
    assert!(matches!(
        log.wal.records_from(1, limits(), &images),
        Err(WalError::RangeAhead { durable_tail: 0, .. })
    ));
    // The next synced append publishes both.
    log.append_entry(mutation(1)).unwrap();
    let images = log.images();
    assert_eq!(log.wal.records_from(0, limits(), &images).unwrap().next_seq, 2);
    // An unsynced control leaves the context where it was.
    log.wal.views = Views::with_current(7);
    let payload = encode(&WalEntry::Checkpoint { flush_seq: 2 });
    let frame = log.wal.entry_frame(&payload).unwrap();
    log.disk.file(0).extend_from_slice(&frame);
    let io = AppendIo { cleanup: fine(), write: Ok(()), sync: Err(broken()), roll: Log::no_roll() };
    assert!(log.wal.acknowledge_flush(2, Ok(payload), io).is_err());
    assert_eq!(log.wal.records_from(2, limits(), &log.images()).unwrap().seed_view, 1);
    log.acknowledge(2).unwrap();
    assert_eq!(log.wal.records_from(2, limits(), &log.images()).unwrap().seed_view, 7);
}

#[test]
fn records_from_survives_reopen_and_rollover() {
    let config = WalConfig { max_segment_bytes: 1, ..default_config() };
    let mut log = Log::create(codecs(&[]), config);
    for tick in 0..3 {
        log.wal.views.bump();
        log.append(Vec::new(), tick);
    }
    let images = log.images();
    let range = log.wal.records_from(0, limits(), &images).unwrap();
    assert_eq!(range.runs.len(), 3);
    let narrow = WalRangeLimits { max_control_frames: 1, ..limits() };
    assert_eq!(log.wal.records_from(0, narrow, &images).unwrap().next_seq, 1);
    for (seq, run) in range.runs.iter().enumerate() {
        assert_eq!(run.segment_start_seq, seq as u64);
        let whole = [run.schema_frame.as_slice(), run.frames.as_slice()].concat();
        assert_eq!(whole, log.disk.file(seq as u64)[4..]);
    }
    assert_eq!(log.wal.records_from(2, limits(), &images).unwrap().seed_view, 2);
    let tail = log.wal.records_from(3, limits(), &images).unwrap();
    assert_eq!((tail.next_seq, tail.seed_view), (3, 3));
    let log = log.reopen(config);
    let images = log.images();
    assert_eq!(log.wal.records_from(0, limits(), &images).unwrap(), range);
    assert_eq!(log.wal.records_from(3, limits(), &images).unwrap(), tail);
}

#[test]
fn records_from_refuses_unresolved_history() {
    // Gaps, duplicate slots, stale mutations, and a stale active control.
    for entries in [
        vec![(mutation(1), 0)],
        vec![(mutation(0), 0), (mutation(0), 0)],
        vec![(mutation(0), 2), (mutation(1), 1)],
        vec![(mutation(0), 2), (WalEntry::Checkpoint { flush_seq: 1 }, 1)],
    ] {
        let mut log = Log::create(codecs(&[]), default_config());
        for (entry, view) in entries {
            log.wal.views = Views::with_current(view);
            match entry {
                WalEntry::Checkpoint { flush_seq } => log.acknowledge(flush_seq).unwrap(),
                entry => {
                    log.append_entry(entry).unwrap();
                }
            }
        }
        // Even a tail request must validate the skipped prefix.
        assert!(matches!(
            log.wal.records_from(log.wal.next_seq(), limits(), &log.images()),
            Err(WalError::UnresolvedHistory { .. })
        ));
    }

    let mut log = Log::create(codecs(&[]), default_config());
    log.wal.views = Views::with_current(2);
    log.append_entry(mutation(0)).unwrap();
    log.wal.views = Views::with_current(1);
    log.append_entry(mutation(1)).unwrap();
    log.wal.views = Views::with_current(2);
    log.roll();
    assert!(matches!(
        log.wal.records_from(0, limits(), &log.images()),
        Err(WalError::UnresolvedHistory { seq: 1, .. })
    ));
}

#[test]
fn records_from_rejects_corrupt_published_frames() {
    for corruption in ["torn", "crc", "magic", "missing_schema"] {
        let mut log = Log::create(codecs(&[]), default_config());
        log.append_entry(mutation(0)).unwrap();
        let schema_end = log.images()[0].frames[0].frame.next_offset() as usize;
        let bytes = log.disk.file(0);
        match corruption {
            "torn" => {
                bytes.pop();
            }
            "crc" => {
                *bytes.last_mut().unwrap() ^= 1;
            }
            "magic" => {
                bytes[0] ^= 1;
            }
            "missing_schema" => {
                bytes.drain(4..schema_end);
            }
            _ => unreachable!(),
        }
        let error = log.wal.records_from(0, limits(), &log.images()).unwrap_err();
        if corruption == "crc" {
            assert!(matches!(error, WalError::ChecksumMismatch { .. }));
        } else {
            assert!(matches!(error, WalError::Format(_)), "{corruption}: {}", error.message());
        }
    }
}

#[test]
fn records_from_range_boundary_edges() {
    let mut log = Log::create(codecs(&[]), default_config());
    assert_eq!(log.wal.records_from(0, limits(), &log.images()).unwrap().next_seq, 0);
    for tick in 0..3 {
        log.append(Vec::new(), tick);
        log.acknowledge(tick + 1).unwrap();
    }
    let images = log.images();
    for bounds in [
        WalRangeLimits { max_records: 0, ..limits() },
        WalRangeLimits { max_bytes: 0, ..limits() },
        WalRangeLimits { max_control_frames: 0, ..limits() },
    ] {
        assert!(matches!(
            log.wal.records_from(0, bounds, &images),
            Err(WalError::InvalidRangeLimits)
        ));
    }
    for seq in [4, u64::MAX] {
        assert!(matches!(
            log.wal.records_from(seq, limits(), &images),
            Err(WalError::RangeAhead { .. })
        ));
    }
    let wide = WalRangeLimits { max_records: usize::MAX, ..limits() };
    assert_eq!(log.wal.records_from(0, wide, &images).unwrap().next_seq, 3);
    let single = WalRangeLimits { max_records: 1, ..limits() };
    let one = log.wal.records_from(0, single, &images).unwrap();
    assert_eq!(one.next_seq, 1);
    let bytes = one.runs[0].schema_frame.len() + one.runs[0].frames.len();
    let fitting = WalRangeLimits { max_bytes: bytes, ..limits() };
    assert_eq!(log.wal.records_from(0, fitting, &images).unwrap(), one);
    let short = WalRangeLimits { max_bytes: bytes - 1, ..limits() };
    assert!(matches!(
        log.wal.records_from(0, short, &images),
        Err(WalError::RangeLimitTooSmall)
    ));
    let controls = |n| WalRangeLimits { max_control_frames: n, ..limits() };
    assert_eq!(log.wal.records_from(0, controls(1), &images).unwrap(), one);
    let two = log.wal.records_from(0, controls(2), &images).unwrap();
    assert_eq!(two.next_seq, 2);
    assert_eq!(log.wal.records_from(two.next_seq, limits(), &images).unwrap().next_seq, 3);
    assert!(log.wal.records_from(3, limits(), &images).unwrap().runs.is_empty());
}

#[test]
fn records_from_survives_failed_rollover_sync() {
    // The new file's sync fails, or the directory's after it.
    for fail_at in ["file", "directory"] {
        let failure = WalError::Io(IoError::Host(fail_at.to_string()));
        let mut log = Log::create(codecs(&[]), default_config());
        log.append(Vec::new(), 0);
        let io = RollIo {
            cleanup: fine(),
            opened: Ok(()),
            prepared: Err(failure.clone()),
            rollback: fine(),
        };
        assert_eq!(log.wal.roll_segment(io), Err(failure));
        assert_eq!(log.wal.active_start_seq(), 0);
        assert_eq!(log.wal.pending_roll(), None);
        // Continue in the old segment, then roll later and reopen.
        log.append(Vec::new(), 1);
        log.roll();
        let expected = log.wal.records_from(0, limits(), &log.images()).unwrap();
        assert_eq!(expected.next_seq, 2);
        let log = log.reopen(default_config());
        assert_eq!(log.wal.records_from(0, limits(), &log.images()).unwrap(), expected);
    }
}

#[test]
fn failed_rollover_cleanup_blocks_writes() {
    let mut log = Log::create(codecs(&[]), default_config());
    log.append(Vec::new(), 0);
    let stuck = || CleanupIo { removed: Err(broken()), synced: Ok(()) };
    let io = RollIo {
        cleanup: fine(),
        opened: Ok(()),
        prepared: Err(WalError::Io(IoError::Host("sync".to_string()))),
        rollback: stuck(),
    };
    assert_eq!(log.wal.roll_segment(io), Err(WalError::Io(broken())));
    assert_eq!(log.wal.pending_roll(), Some(1));
    let payload = encode(&mutation(1));
    let io = || AppendIo { cleanup: stuck(), write: Ok(()), sync: Ok(()), roll: Log::no_roll() };
    assert!(log.wal.append(Ok(payload.clone()), io()).is_err());
    assert!(log.wal.acknowledge_flush(1, Ok(payload), io()).is_err());
    assert!(log.wal.delete_segments_before(1, stuck(), &vec![0, 1], &vec![Ok(())]).is_err());
    assert_eq!(log.wal.next_seq(), 1);
    log.append(Vec::new(), 1);
    assert_eq!(log.wal.pending_roll(), None);
    log.roll();
    let log = log.reopen(default_config());
    assert_eq!(log.wal.records_from(0, limits(), &log.images()).unwrap().next_seq, 2);
}

#[test]
fn missing_rollover_file_counts_as_removed() {
    let mut log = Log::create(codecs(&[]), default_config());
    let io = RollIo {
        cleanup: fine(),
        opened: Ok(()),
        prepared: Err(WalError::Io(broken())),
        rollback: CleanupIo { removed: Ok(()), synced: Err(broken()) },
    };
    assert!(log.wal.roll_segment(io).is_err());
    assert_eq!(log.wal.pending_roll(), Some(0));
    let gone = CleanupIo { removed: Err(IoError::NotFound), synced: Ok(()) };
    assert_eq!(log.wal.cleanup_pending_roll(gone), Ok(()));
    assert_eq!(log.wal.pending_roll(), None);
}

#[test]
fn failed_append_issues_no_sequence() {
    let mut log = Log::create(codecs(&[]), default_config());
    let io = || AppendIo {
        cleanup: fine(),
        write: Err(broken()),
        sync: Ok(()),
        roll: Log::no_roll(),
    };
    assert_eq!(
        log.wal.append(Ok(encode(&mutation(0))), io()),
        Err(WalError::Io(broken()))
    );
    assert_eq!(
        log.wal.append(Err(WalError::Codec(CodecError::Other("bad".to_string()))), io()),
        Err(WalError::Codec(CodecError::Other("bad".to_string())))
    );
    assert_eq!(log.wal.next_seq(), 0);
    assert_eq!(log.append(Vec::new(), 0), 0);
}

#[test]
fn failed_rollover_is_counted_not_reported() {
    let mut log = Log::create(codecs(&[]), WalConfig { max_segment_bytes: 1, ..default_config() });
    let payload = encode(&mutation(0));
    let frame = log.wal.entry_frame(&payload).unwrap();
    log.disk.file(0).extend_from_slice(&frame);
    let io = AppendIo { cleanup: fine(), write: Ok(()), sync: Ok(()), roll: Log::no_roll() };
    assert_eq!(log.wal.append(Ok(payload), io), Ok(0));
    assert_eq!(log.stats().roll_failures, 1);
    assert_eq!(log.wal.active_start_seq(), 0);
    assert_eq!(log.append(Vec::new(), 1), 1);
    assert_eq!(log.wal.active_start_seq(), 2);
}

#[test]
fn records_from_requires_retained_fence_context() {
    let config = WalConfig { max_segment_bytes: 1, ..default_config() };
    let mut log = Log::create(codecs(&[]), config);
    for tick in 0..3 {
        log.append(Vec::new(), tick);
    }
    assert_eq!(log.delete_before(1), 1);
    let reopened = Log::try_open(log.disk.clone(), log.codecs.clone(), config).unwrap();
    for log in [log, reopened] {
        let images = log.images();
        assert!(matches!(
            log.wal.records_from(0, limits(), &images),
            Err(WalError::CursorBehind { oldest: 1, .. })
        ));
        for seq in [1, 3] {
            assert!(matches!(
                log.wal.records_from(seq, limits(), &images),
                Err(WalError::MissingFenceContext { oldest: 1 })
            ));
        }
    }
}

/// Recovers a world from its baseline and the log.
fn recover(log: &Log, baseline: Baseline, world: &mut World) -> Result<u64, RecoverError> {
    let images = log.images();
    let plan = recover_world(baseline, &log.wal, &images, &world.shape(), &log.codecs)?;
    let mut outcomes = Vec::new();
    for r in &plan.records {
        match &images[r.source].frames[r.frame].entry {
            Ok(WalEntry::Mutations(record)) => {
                outcomes.push(world.apply(record, &log.codecs, &plan.remaps[r.remap]));
            }
            _ => unreachable!(),
        }
    }
    plan.execute(&outcomes).map(|done| done.0).map_err(RecoverError::Wal)
}

#[test]
fn recover_world_replays_wal_tail() {
    let mut log = Log::create(codecs(&["pos", "health"]), default_config());
    log.append(
        vec![SerializedMutation::Spawn { entity: 1, components: vec![(1, health(42))] }],
        0,
    );
    let log = log.reopen(default_config());
    let mut world = World::new(&["pos", "health"]);
    world.rows.insert(0, BTreeMap::from([(0, pos(1.0, 2.0))]));
    assert_eq!(recover(&log, Baseline::Restored { flush_seq: 0 }, &mut world), Ok(0));
    assert_eq!(world.values("pos").len(), 1);
    assert_eq!(world.values("health"), vec![health(42)]);
}

#[test]
fn recover_world_restores_sparse_then_wal_tail() {
    let mut log = Log::create(codecs(&["pos", "base", "tail"]), default_config());
    log.append(
        vec![
            SerializedMutation::Spawn { entity: 1, components: vec![(0, pos(2.0, 0.0))] },
            SerializedMutation::SparseInsert { entity: 1, component_id: 2, data: health(200) },
        ],
        0,
    );
    let log = log.reopen(default_config());
    let mut world = World::new(&["pos", "base", "tail"]);
    world.rows.insert(0, BTreeMap::from([(0, pos(1.0, 0.0)), (1, health(100))]));
    recover(&log, Baseline::Restored { flush_seq: 0 }, &mut world).unwrap();
    assert_eq!(world.values("base"), vec![health(100)]);
    assert_eq!(world.values("tail"), vec![health(200)]);
}

#[test]
fn recovery_starts_at_the_baseline() {
    let mut log = Log::create(codecs(&["pos"]), default_config());
    log.spawns(5);
    // The baseline holds the first three records.
    let mut world = World::new(&["pos"]);
    world.tick = 3;
    assert_eq!(recover(&log, Baseline::Restored { flush_seq: 3 }, &mut world), Ok(4));
    assert_eq!(world.rows.keys().copied().collect::<Vec<u64>>(), vec![3, 4]);
    let mut empty = World::new(&["pos"]);
    assert_eq!(recover(&log, Baseline::Absent, &mut empty), Ok(4));
    assert_eq!(empty.rows.len(), 5);
    assert_eq!(
        recover(&log, Baseline::Failed("no run".to_string()), &mut World::new(&["pos"])),
        Err(RecoverError::Lsm("no run".to_string()))
    );
}

#[test]
fn full_replication_flow() {
    let mut world = World::new(&["pos"]);
    for i in 0..5 {
        world.rows.insert(i, BTreeMap::from([(0, pos(i as f32, 0.0))]));
    }
    let mut log = Log::create(codecs(&["pos"]), default_config());
    let flush_seq = log.wal.next_seq();
    for i in 5..8 {
        log.append(
            vec![SerializedMutation::Spawn { entity: i, components: vec![(0, pos(i as f32, 0.0))] }],
            i,
        );
    }
    let log = log.reopen(default_config());
    recover(&log, Baseline::Restored { flush_seq }, &mut world).unwrap();
    assert_eq!(world.values("pos").len(), 8);
    let mut cursor = WalCursor::open(&log.images(), flush_seq).unwrap();
    let batch = read(&mut cursor, &log, 100);
    assert!(batch.records.is_empty() || batch.records.len() <= 3);
}

#[test]
fn a_new_log_counts_its_views_from_zero() {
    let mut log = Log::create(codecs(&["pos"]), default_config());
    assert_eq!(log.wal.current_view(), 0);
    for view in 1..=3 {
        assert_eq!(log.wal.bump_view(), view);
        assert_eq!(log.wal.current_view(), view);
        let frame = log.wal.entry_frame(b"payload").unwrap();
        assert_eq!(frame[8..16], view.to_le_bytes());
    }
}

/// The raw bytes of a range's mutation frames.
fn mutation_bytes(range: &WalFrameRange) -> Vec<u8> {
    let mut out = Vec::new();
    for run in &range.runs {
        let mut at = 0;
        while let Some(frame) = RawFrame::read_from(&run.frames, at).unwrap() {
            at = frame.next_offset() as usize;
            if let Ok(WalEntry::Mutations(_)) = decode(frame.payload_bytes()) {
                frame.append_to(&mut out);
            }
        }
    }
    out
}

#[test]
fn pages_join_byte_for_byte() {
    let mut log = Log::create(codecs(&["pos"]), small_config());
    for tick in 0..7 {
        log.append(spawn(tick, tick as u8), tick);
        if tick % 3 == 0 {
            log.wal.bump_view();
            log.acknowledge(tick + 1).unwrap();
        }
    }
    let images = log.images();
    let whole = log.wal.records_from(1, limits(), &images).unwrap();
    for max_records in 1..=6 {
        let page = WalRangeLimits { max_records, ..limits() };
        let mut bytes = Vec::new();
        let mut from = 1;
        while from < whole.next_seq {
            let range = log.wal.records_from(from, page, &images).unwrap();
            bytes.extend(mutation_bytes(&range));
            from = range.next_seq;
        }
        assert_eq!(bytes, mutation_bytes(&whole));
    }
    // Later writes leave earlier slots as they are.
    log.append(spawn(7, 7), 7);
    let six = WalRangeLimits { max_records: 6, ..limits() };
    let again = log.wal.records_from(1, six, &log.images()).unwrap();
    assert_eq!(mutation_bytes(&again), mutation_bytes(&whole));
}

#[test]
fn reopened_log_keeps_its_checkpoint_accounting() {
    let config = WalConfig { max_segment_bytes: 128, max_bytes_between_checkpoints: Some(64) };
    let mut log = Log::create(codecs(&["pos"]), config);
    for tick in 0..6 {
        log.append(spawn(tick, tick as u8), tick);
        if tick == 2 {
            log.acknowledge(3).unwrap();
        }
        let (before, images) = (log.stats(), log.images());
        let reopened = Log::try_open(log.disk.clone(), log.codecs.clone(), config).unwrap();
        assert_eq!(reopened.stats().next_seq, before.next_seq);
        assert_eq!(reopened.stats().last_checkpoint_seq, before.last_checkpoint_seq);
        assert_eq!(reopened.stats().bytes_since_checkpoint, before.bytes_since_checkpoint);
        assert_eq!(
            reopened.wal.records_from(0, limits(), &images),
            log.wal.records_from(0, limits(), &images)
        );
    }
}

#[test]
fn cursor_passes_over_a_second_file_of_one_start() {
    let mut log = Log::create(codecs(&["pos"]), small_config());
    log.spawns(2);
    let twin = log.disk.files[1].clone();
    log.disk.files.insert(1, twin);
    let images = log.images();
    let mut cursor = WalCursor::open(&images, 0).unwrap();
    let place = cursor.locate(&images).unwrap();
    let batch = cursor.next_batch(10, &images, place).unwrap();
    assert_eq!(seqs(&batch), vec![0, 1]);
    assert_eq!(cursor.segment_start(), 2);
}
