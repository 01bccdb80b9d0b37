//! Followers: batches, range plans, journals, pumps and sessions.
use minkowski_persist::apply::{ApplyRemap, CodecInfo, Codecs, WorldShape};
use minkowski_persist::change::{apply_record, resolve_record, ComponentValue, WorldChange};
use minkowski_persist::cursor::WalCursor;
use minkowski_persist::error::{CodecError, FormatIssue, IoError, WalError};
use minkowski_persist::fingerprint::{
    world_fingerprint, ArchetypeState, ComponentState, RowState, ValueState,
};
use minkowski_persist::frame::{
    write_frame, DecodedFrame, RawFrame, FRAME_HEADER_SIZE, MAX_FRAME_SIZE,
};
use minkowski_persist::ingest::{
    read_journal, EntryWork, IngestError, JournalEntry, JournalIo, JournalStep, JournaledFollower,
    JOURNAL_HEADER_SIZE,
};
use minkowski_persist::plan::{split_range, DecodedRun, ValidatedRange};
use minkowski_persist::range::{WalFrameRange, WalRangeLimits, WalSegmentRun};
use minkowski_persist::record::{
    ComponentSchema, ReplicationBatch, SerializedMutation, WalEntry, WalRecord, WalSchema,
};
use minkowski_persist::replicated::{Replicated, SessionError, SessionFetch};
use minkowski_persist::replication::{
    apply_batch, Admission, Follower, FollowerError, ReplicationError,
};
use minkowski_persist::segment::{read_segment, segment_filename, SegmentImage};
use minkowski_persist::transport::{
    Fetch, FetchResponse, LoopbackFetch, PumpError, RangeWork, RecordingFetch, ReplicationPump,
    TransportError,
};
use minkowski_persist::wal::{AppendIo, CleanupIo, RollIo, Wal, WalConfig};
use std::collections::BTreeMap;

const HISTORY: [u8; 16] = [7; 16];

/// The segment files of one log, by start sequence.
#[derive(Clone, Default)]
struct Disk {
    files: Vec<(u64, Vec<u8>)>,
}

impl Disk {
    fn file(&mut self, start: u64) -> &mut Vec<u8> {
        &mut self.files.iter_mut().find(|f| f.0 == start).unwrap().1
    }

    fn starts(&self) -> Vec<u64> {
        self.files.iter().map(|f| f.0).collect()
    }

    fn images(&self, codecs: &Codecs) -> Vec<SegmentImage> {
        let mut images = Vec::new();
        for (start, bytes) in &self.files {
            let (meta, frames) = read_segment(bytes);
            images.push(SegmentImage {
                start_seq: *start,
                path: segment_filename(*start),
                meta,
                frames: frames.into_iter().map(|f| decoded(f, codecs)).collect(),
            });
        }
        images
    }
}

fn put_u64(out: &mut Vec<u8>, n: u64) {
    out.extend_from_slice(&n.to_le_bytes());
}

fn put_bytes(out: &mut Vec<u8>, bytes: &[u8]) {
    put_u64(out, bytes.len() as u64);
    out.extend_from_slice(bytes);
}

fn encode(entry: &WalEntry) -> Vec<u8> {
    let mut out = Vec::new();
    match entry {
        WalEntry::Schema(schema) => {
            out.push(0);
            put_u64(&mut out, schema.components.len() as u64);
            for c in &schema.components {
                put_u64(&mut out, c.id as u64);
                put_bytes(&mut out, c.name.as_bytes());
                put_u64(&mut out, c.size as u64);
                put_u64(&mut out, c.align as u64);
            }
        }
        WalEntry::Mutations(record) => {
            out.push(1);
            put_u64(&mut out, record.seq);
            put_u64(&mut out, record.tick_after);
            put_u64(&mut out, record.mutations.len() as u64);
            for m in &record.mutations {
                match m {
                    SerializedMutation::Spawn { entity, components } => {
                        out.push(0);
                        put_u64(&mut out, *entity);
                        put_u64(&mut out, components.len() as u64);
                        for (id, data) in components {
                            put_u64(&mut out, *id as u64);
                            put_bytes(&mut out, data);
                        }
                    }
                    SerializedMutation::Despawn { entity } => {
                        out.push(1);
                        put_u64(&mut out, *entity);
                    }
                    SerializedMutation::Insert { entity, component_id, data } => {
                        out.push(2);
                        put_u64(&mut out, *entity);
                        put_u64(&mut out, *component_id as u64);
                        put_bytes(&mut out, data);
                    }
                    SerializedMutation::Remove { entity, component_id } => {
                        out.push(3);
                        put_u64(&mut out, *entity);
                        put_u64(&mut out, *component_id as u64);
                    }
                    SerializedMutation::SparseInsert { entity, component_id, data } => {
                        out.push(4);
                        put_u64(&mut out, *entity);
                        put_u64(&mut out, *component_id as u64);
                        put_bytes(&mut out, data);
                    }
                    SerializedMutation::SparseRemove { entity, component_id } => {
                        out.push(5);
                        put_u64(&mut out, *entity);
                        put_u64(&mut out, *component_id as u64);
                    }
                }
            }
        }
        WalEntry::Checkpoint { flush_seq } => {
            out.push(2);
            put_u64(&mut out, *flush_seq);
        }
    }
    out
}

struct Reader<'a> {
    bytes: &'a [u8],
}

impl Reader<'_> {
    fn byte(&mut self) -> Result<u8, String> {
        let (first, rest) = self.bytes.split_first().ok_or("short entry")?;
        self.bytes = rest;
        Ok(*first)
    }

    fn number(&mut self) -> Result<u64, String> {
        if self.bytes.len() < 8 {
            return Err("short entry".to_string());
        }
        let (head, rest) = self.bytes.split_at(8);
        self.bytes = rest;
        Ok(u64::from_le_bytes(head.try_into().unwrap()))
    }

    fn blob(&mut self) -> Result<Vec<u8>, String> {
        let n = self.number()? as usize;
        if self.bytes.len() < n {
            return Err("short entry".to_string());
        }
        let (head, rest) = self.bytes.split_at(n);
        self.bytes = rest;
        Ok(head.to_vec())
    }
}

fn decode(bytes: &[u8]) -> Result<WalEntry, String> {
    let mut r = Reader { bytes };
    match r.byte()? {
        0 => {
            let n = r.number()?;
            let mut components = Vec::new();
            for _ in 0..n {
                components.push(ComponentSchema {
                    id: r.number()? as usize,
                    name: String::from_utf8(r.blob()?).map_err(|e| e.to_string())?,
                    size: r.number()? as usize,
                    align: r.number()? as usize,
                });
            }
            Ok(WalEntry::Schema(WalSchema { components }))
        }
        1 => {
            let seq = r.number()?;
            let tick_after = r.number()?;
            let n = r.number()?;
            let mut mutations = Vec::new();
            for _ in 0..n {
                let tag = r.byte()?;
                let entity = r.number()?;
                mutations.push(match tag {
                    0 => {
                        let count = r.number()?;
                        let mut components = Vec::new();
                        for _ in 0..count {
                            components.push((r.number()? as usize, r.blob()?));
                        }
                        SerializedMutation::Spawn { entity, components }
                    }
                    1 => SerializedMutation::Despawn { entity },
                    2 => SerializedMutation::Insert {
                        entity,
                        component_id: r.number()? as usize,
                        data: r.blob()?,
                    },
                    3 => SerializedMutation::Remove {
                        entity,
                        component_id: r.number()? as usize,
                    },
                    4 => SerializedMutation::SparseInsert {
                        entity,
                        component_id: r.number()? as usize,
                        data: r.blob()?,
                    },
                    5 => SerializedMutation::SparseRemove {
                        entity,
                        component_id: r.number()? as usize,
                    },
                    other => return Err(format!("mutation tag {other}")),
                });
            }
            Ok(WalEntry::Mutations(WalRecord { seq, mutations, tick_after }))
        }
        2 => Ok(WalEntry::Checkpoint { flush_seq: r.number()? }),
        other => Err(format!("entry tag {other}")),
    }
}

/// The pairs of source and codec ids that a schema binds, by stable name.
fn bind(schema: &WalSchema, codecs: &Codecs) -> Result<Vec<(usize, usize)>, CodecError> {
    let mut pairs = Vec::new();
    for c in &schema.components {
        match codecs.entries.iter().find(|e| e.name == c.name) {
            Some(codec) => pairs.push((c.id, codec.id)),
            None => return Err(CodecError::Other(format!("no codec named {}", c.name))),
        }
    }
    Ok(pairs)
}

fn decoded(frame: RawFrame, codecs: &Codecs) -> DecodedFrame {
    let entry = decode(frame.payload_bytes());
    let binding = match &entry {
        Ok(WalEntry::Schema(schema)) => bind(schema, codecs),
        _ => Ok(Vec::new()),
    };
    DecodedFrame { frame, entry, binding }
}

fn codecs(names: &[&str]) -> Codecs {
    Codecs {
        entries: names
            .iter()
            .enumerate()
            .map(|(id, name)| CodecInfo {
                id,
                name: name.to_string(),
                size: 8,
                align: 4,
            })
            .collect(),
    }
}

/// A world whose components are byte strings.
#[derive(Clone, Debug, Default, PartialEq, Eq)]
struct World {
    columns: Vec<Option<String>>,
    tick: u64,
    rows: BTreeMap<u64, BTreeMap<usize, Vec<u8>>>,
}

/// Decodes a component value. A flag is one byte, 0 or 1.
fn decode_component(name: &str, data: &[u8], checked: bool) -> Result<ComponentValue, CodecError> {
    if checked && name == "flag" && data != [0] && data != [1] {
        return Err(CodecError::Other("invalid bool".to_string()));
    }
    Ok(ComponentValue { bytes: data.to_vec(), size: 8, align: 4 })
}

impl World {
    fn new(names: &[&str]) -> World {
        World {
            columns: names.iter().map(|n| Some(n.to_string())).collect(),
            ..World::default()
        }
    }

    fn shape(&self) -> WorldShape {
        WorldShape { columns: self.columns.clone(), tick: self.tick }
    }

    fn column(&self, name: &str) -> usize {
        self.columns.iter().position(|c| c.as_deref() == Some(name)).unwrap()
    }

    fn values(&self, name: &str) -> Vec<Vec<u8>> {
        let column = self.column(name);
        self.rows.values().filter_map(|row| row.get(&column).cloned()).collect()
    }

    /// Resolves, decodes and applies one record.
    fn apply(
        &mut self,
        record: &WalRecord,
        codecs: &Codecs,
        remap: &ApplyRemap,
        checked: bool,
    ) -> Result<(), WalError> {
        let resolved = resolve_record(record, remap, codecs);
        let mut values = Vec::new();
        for t in &resolved.targets {
            let data = match &record.mutations[t.mutation] {
                SerializedMutation::Spawn { components, .. } => &components[t.component].1,
                SerializedMutation::Insert { data, .. } => data,
                SerializedMutation::SparseInsert { data, .. } => data,
                _ => unreachable!(),
            };
            let name = &codecs.entries.iter().find(|c| c.id == t.codec_id).unwrap().name;
            let value = decode_component(name, data, checked);
            let failed = value.is_err();
            values.push(value);
            if failed {
                break;
            }
        }
        let plan = apply_record(record, &self.shape(), codecs, Some(remap), &values)?;
        self.tick = plan.tick;
        for change in &plan.changes {
            let value = |v: &usize| {
                let t = &plan.targets[*v];
                (t.world_id, values[*v].as_ref().unwrap().bytes.clone())
            };
            let missing = |e: &u64| WalError::Apply(format!("entity {e} is not alive"));
            match change {
                WorldChange::Spawn { entity, first, count } => {
                    let row = (*first..*first + *count).map(|v| value(&v)).collect();
                    if self.rows.insert(*entity, row).is_some() {
                        return Err(WalError::Apply(format!("entity {entity} is alive")));
                    }
                }
                WorldChange::Despawn { entity } => {
                    self.rows.remove(entity).ok_or_else(|| missing(entity))?;
                }
                WorldChange::Insert { entity, value: v }
                | WorldChange::SparseInsert { entity, value: v } => {
                    let (column, bytes) = value(v);
                    let row = self.rows.get_mut(entity).ok_or_else(|| missing(entity))?;
                    row.insert(column, bytes);
                }
                WorldChange::Remove { entity, world_id }
                | WorldChange::SparseRemove { entity, world_id } => {
                    let row = self.rows.get_mut(entity).ok_or_else(|| missing(entity))?;
                    row.remove(world_id);
                }
            }
        }
        self.tick = plan.next_tick;
        Ok(())
    }
}

/// A log with its files.
struct Log {
    disk: Disk,
    wal: Wal,
    codecs: Codecs,
}

fn fine() -> CleanupIo {
    CleanupIo { removed: Ok(()), synced: Ok(()) }
}

fn broken() -> IoError {
    IoError::Host("injected failure".to_string())
}

fn spawn(entity: u64, x: u8) -> Vec<SerializedMutation> {
    vec![SerializedMutation::Spawn {
        entity,
        components: vec![(0, vec![x, 0, 0, 0, 0, 0, 0, 0])],
    }]
}

impl Log {
    fn create(codecs: Codecs, config: WalConfig) -> Log {
        let schema = codecs.build_schema();
        let payload = encode(&WalEntry::Schema(schema.clone()));
        let (wal, header) = Wal::create(schema, config, &payload).unwrap();
        Log {
            disk: Disk { files: vec![(0, header)] },
            wal,
            codecs,
        }
    }

    fn try_open(disk: Disk, codecs: Codecs, config: WalConfig) -> Result<Log, WalError> {
        let schema = codecs.build_schema();
        let payload = encode(&WalEntry::Schema(schema.clone()));
        let recovery = Wal::open(&disk.images(&codecs), schema, config, &payload)?;
        let mut disk = disk;
        let active = disk.file(recovery.wal.active_start_seq());
        active.truncate(recovery.truncate_to as usize);
        if let Some(header) = &recovery.header {
            active.clear();
            active.extend_from_slice(header);
        }
        Ok(Log { disk, wal: recovery.wal, codecs })
    }

    fn reopen(self, config: WalConfig) -> Log {
        Log::try_open(self.disk, self.codecs, config).unwrap()
    }

    fn images(&self) -> Vec<SegmentImage> {
        self.disk.images(&self.codecs)
    }

    fn cleanup(&mut self) -> CleanupIo {
        if let Some(start) = self.wal.pending_roll() {
            self.disk.files.retain(|f| f.0 != start);
        }
        fine()
    }

    fn roll_io(&mut self, start: u64) -> RollIo {
        let payload = encode(&WalEntry::Schema(self.codecs.build_schema()));
        let header = self.wal.roll_header(&payload).unwrap();
        let bytes = header.len() as u64;
        self.disk.files.push((start, header));
        RollIo { cleanup: fine(), opened: Ok(()), prepared: Ok(bytes), rollback: fine() }
    }

    fn no_roll() -> RollIo {
        RollIo { cleanup: fine(), opened: Err(broken()), prepared: Ok(0), rollback: fine() }
    }

    /// Appends an entry with the sequence number it says.
    fn append_entry(&mut self, entry: WalEntry) -> Result<u64, WalError> {
        let cleanup = self.cleanup();
        let payload = encode(&entry);
        let frame = self.wal.entry_frame(&payload).unwrap();
        let start = self.wal.active_start_seq();
        self.disk.file(start).extend_from_slice(&frame);
        let roll = if self.wal.roll_due(payload.len()) {
            let next = self.wal.next_seq() + 1;
            self.roll_io(next)
        } else {
            Log::no_roll()
        };
        let io = AppendIo { cleanup, write: Ok(()), sync: Ok(()), roll };
        self.wal.append(Ok(payload), io)
    }

    fn append(&mut self, mutations: Vec<SerializedMutation>, tick_after: u64) -> u64 {
        let seq = self.wal.next_seq();
        let entry = WalEntry::Mutations(WalRecord { seq, mutations, tick_after });
        self.append_entry(entry).unwrap()
    }

    /// Appends `n` spawns, each committed at the tick after the one before.
    fn spawns(&mut self, n: u64) {
        for _ in 0..n {
            let seq = self.wal.next_seq();
            self.append(spawn(seq, seq as u8), seq);
        }
    }

    fn acknowledge(&mut self, seq: u64) -> Result<(), WalError> {
        let cleanup = self.cleanup();
        let payload = encode(&WalEntry::Checkpoint { flush_seq: seq });
        let frame = self.wal.entry_frame(&payload).unwrap();
        let start = self.wal.active_start_seq();
        self.disk.file(start).extend_from_slice(&frame);
        let io = AppendIo { cleanup, write: Ok(()), sync: Ok(()), roll: Log::no_roll() };
        self.wal.acknowledge_flush(seq, Ok(payload), io)
    }

    fn roll(&mut self) {
        let next = self.wal.next_seq();
        let io = self.roll_io(next);
        self.wal.roll_segment(io).unwrap();
    }

    fn delete_before(&mut self, seq: u64) -> usize {
        let starts = self.disk.starts();
        let n = self.wal.deletable(&starts, seq);
        let removed = vec![Ok(()); n];
        let deleted = self.wal.delete_segments_before(seq, fine(), &starts, &removed).unwrap();
        self.disk.files.drain(..deleted);
        deleted
    }

}

fn limits() -> WalRangeLimits {
    WalRangeLimits { max_records: 100, max_bytes: 1024 * 1024, max_control_frames: 100 }
}

/// The frames of a range, decoded as far as the range is looked at.
fn decode_range(
    range: &WalFrameRange,
    apply_from: u64,
    limits: WalRangeLimits,
    codecs: &Codecs,
) -> Vec<DecodedRun> {
    match split_range(range, apply_from, limits) {
        Err(_) => Vec::new(),
        Ok(runs) => runs
            .into_iter()
            .map(|run| DecodedRun {
                schema: run.schema.map(|f| decoded(f, codecs)),
                frames: run.frames.into_iter().map(|f| decoded(f, codecs)).collect(),
                failure: run.failure,
            })
            .collect(),
    }
}

/// Applies the planned records in order, up to the first failure.
fn apply_plan(
    plan: &ValidatedRange,
    runs: &[DecodedRun],
    world: &mut World,
    codecs: &Codecs,
) -> Vec<Result<(), WalError>> {
    let mut outcomes = Vec::new();
    for r in &plan.records {
        let outcome = match &runs[r.source].frames[r.frame].entry {
            Ok(WalEntry::Mutations(record)) => {
                world.apply(record, codecs, &plan.remaps[r.remap], plan.checked)
            }
            _ => unreachable!(),
        };
        let failed = outcome.is_err();
        outcomes.push(outcome);
        if failed {
            break;
        }
    }
    outcomes
}

fn fingerprint(world: &World) -> u64 {
    let mut archetypes: BTreeMap<Vec<usize>, Vec<RowState>> = BTreeMap::new();
    for (entity, row) in &world.rows {
        let values = row.values().map(|v| ValueState::Bytes(v.clone())).collect();
        let ids: Vec<usize> = row.keys().copied().collect();
        archetypes.entry(ids).or_default().push(RowState { entity: *entity, values });
    }
    let states = archetypes
        .into_iter()
        .map(|(ids, rows)| ArchetypeState {
            components: ids
                .iter()
                .map(|id| ComponentState {
                    id: *id,
                    registered: true,
                    name: world.columns[*id].clone(),
                })
                .collect(),
            rows,
        })
        .collect();
    world_fingerprint(&states).unwrap()
}

fn frame(entry: &WalEntry, view: u64) -> Vec<u8> {
    write_frame(&encode(entry), view).unwrap()
}

fn insert(entity: u64, component_id: usize, value: i32) -> SerializedMutation {
    SerializedMutation::Insert { entity, component_id, data: value.to_le_bytes().to_vec() }
}

fn record(seq: u64, tick_after: u64, mutations: Vec<SerializedMutation>) -> WalEntry {
    WalEntry::Mutations(WalRecord { seq, mutations, tick_after })
}

fn le(value: i32) -> Vec<u8> {
    value.to_le_bytes().to_vec()
}

const ENTITY: u64 = 5;

fn fixture() -> (World, Codecs, WalFrameRange) {
    let codecs = codecs(&["left", "right"]);
    let mut world = World::new(&["left", "right"]);
    world.tick = 3;
    world.rows.insert(ENTITY, BTreeMap::from([(0, le(1)), (1, le(2))]));
    let schema = codecs.build_schema();
    let mut swapped = schema.clone();
    for component in &mut swapped.components {
        component.id = 1 - component.id;
    }
    let range = WalFrameRange {
        from_seq: 0,
        next_seq: 2,
        seed_view: 2,
        runs: vec![
            WalSegmentRun {
                segment_start_seq: 0,
                schema_frame: frame(&WalEntry::Schema(schema), 0),
                frames: frame(&record(0, world.tick, vec![insert(ENTITY, 0, 10)]), 2),
            },
            WalSegmentRun {
                segment_start_seq: 1,
                schema_frame: frame(&WalEntry::Schema(swapped), 1),
                frames: [
                    frame(&WalEntry::Checkpoint { flush_seq: u64::MAX }, 3),
                    frame(&record(1, world.tick + 1, vec![insert(ENTITY, 0, 20)]), 3),
                    frame(&WalEntry::Checkpoint { flush_seq: u64::MAX }, 4),
                ]
                .concat(),
            },
        ],
    };
    (world, codecs, range)
}

fn plan(
    range: &WalFrameRange,
    restored_view: u64,
    limits: WalRangeLimits,
    world: &World,
    codecs: &Codecs,
) -> Result<(ValidatedRange, Vec<DecodedRun>), WalError> {
    let runs = decode_range(range, range.from_seq, limits, codecs);
    let plan = ValidatedRange::from_frames(
        range,
        &runs,
        restored_view,
        limits,
        &world.shape(),
        codecs,
    )?;
    Ok((plan, runs))
}

#[test]
fn raw_frame_buffer_checks_lengths_and_alignment() {
    let bytes = frame(&WalEntry::Checkpoint { flush_seq: 7 }, 3);
    let mut unaligned = vec![0];
    unaligned.extend_from_slice(&bytes);
    let raw = RawFrame::read_bytes(&unaligned, 1).unwrap();
    assert_eq!(raw.next_offset() as usize, unaligned.len());
    assert_eq!(raw.payload.as_ptr() as usize % 16, 0);
    let whole = decoded(raw, &codecs(&[]));
    let (entry, _, view) = whole.decode().unwrap();
    assert!(matches!(entry, WalEntry::Checkpoint { flush_seq: 7 }));
    assert_eq!(view, 3);
    for end in 0..bytes.len() {
        assert!(RawFrame::read_bytes(&bytes[..end], 0).is_err());
    }
    let mut oversized = [0; FRAME_HEADER_SIZE as usize];
    oversized[..4].copy_from_slice(&u32::MAX.to_le_bytes());
    assert!(RawFrame::read_bytes(&oversized, 0).is_err());
}

#[test]
fn raw_plan_preserves_run_remaps_and_fences() {
    let (mut world, codecs, range) = fixture();
    let tick = world.tick;
    let (planned, runs) = plan(&range, 1, limits(), &world, &codecs).unwrap();
    let outcomes = apply_plan(&planned, &runs, &mut world, &codecs);
    assert_eq!(planned.execute(&outcomes).unwrap(), (1, 4));
    assert_eq!(world.rows[&ENTITY][&0], le(10));
    assert_eq!(world.rows[&ENTITY][&1], le(20)); // Id 0 means right in run 2.
    assert_eq!(world.tick, tick + 2);
    let empty = WalFrameRange { from_seq: 2, next_seq: 2, seed_view: 5, runs: vec![] };
    let (planned, _) = plan(&empty, 9, limits(), &world, &codecs).unwrap();
    assert_eq!(planned.view_after(), 9);
    assert_eq!(planned.execute(&Vec::new()).unwrap(), (1, 9));
    assert_eq!(world.tick, tick + 2);

    let (world, codecs, range) = fixture();
    assert!(matches!(
        plan(&range, 3, limits(), &world, &codecs),
        Err(WalError::UnresolvedHistory { seq: 0, .. })
    ));
}

#[test]
fn raw_plan_rejects_invalid_range_before_effects() {
    for case in [
        "crc",
        "schema_crc",
        "no_schema",
        "wrong_schema",
        "extra_schema",
        "body_schema",
        "run_order",
        "run_gap",
        "first_run",
        "missing_slot",
        "short_end",
        "reversed",
        "gap",
        "duplicate",
        "stale",
        "component",
        "tick",
        "tick_overflow",
        "schema_name",
        "duplicate_id",
        "duplicate_name",
        "truncated",
    ] {
        let (world, codecs, mut range) = fixture();
        let tick = world.tick;
        let mut schema = codecs.build_schema();
        match case {
            "crc" => {
                *range.runs[1].frames.last_mut().unwrap() ^= 1;
            }
            "schema_crc" => {
                *range.runs[1].schema_frame.last_mut().unwrap() ^= 1;
            }
            "no_schema" => range.runs[1].schema_frame.clear(),
            "wrong_schema" => {
                range.runs[1].schema_frame = frame(&WalEntry::Checkpoint { flush_seq: 0 }, 0);
            }
            "extra_schema" => range.runs[1].schema_frame.push(0),
            "body_schema" => range.runs[1].frames = frame(&WalEntry::Schema(schema), 3),
            "run_order" => range.runs[1].segment_start_seq = 0,
            "run_gap" => range.runs[1].segment_start_seq = 2,
            "first_run" => range.runs[0].segment_start_seq = 1,
            "missing_slot" => {
                range.runs.pop();
            }
            "short_end" => range.next_seq = 1,
            "reversed" => range.from_seq = 3,
            "gap" => range.runs[1].frames = frame(&record(2, tick + 1, vec![]), 3),
            "duplicate" => range.runs[1].frames = frame(&record(0, tick + 1, vec![]), 3),
            "stale" => range.runs[1].frames = frame(&record(1, tick + 1, vec![]), 1),
            "component" => {
                range.runs[1].frames =
                    frame(&record(1, tick + 1, vec![insert(ENTITY, usize::MAX, 5)]), 3);
            }
            "tick" => range.runs[1].frames = frame(&record(1, tick, vec![]), 3),
            "tick_overflow" => range.runs[1].frames = frame(&record(1, u64::MAX, vec![]), 3),
            "schema_name" | "duplicate_id" | "duplicate_name" => {
                match case {
                    "schema_name" => schema.components[0].name = "absent".into(),
                    "duplicate_id" => schema.components[1].id = schema.components[0].id,
                    _ => schema.components[1].name = schema.components[0].name.clone(),
                }
                range.runs[1].schema_frame = frame(&WalEntry::Schema(schema), 1);
            }
            "truncated" => {
                range.runs[1].frames.pop();
            }
            _ => unreachable!(),
        }
        let error = plan(&range, 0, limits(), &world, &codecs)
            .err()
            .unwrap_or_else(|| panic!("accepted {case}"));
        if matches!(case, "crc" | "schema_crc") {
            assert!(
                matches!(error, WalError::ChecksumMismatch { .. }),
                "{case}: {}",
                error.message()
            );
        }
    }
}

#[test]
fn raw_plan_enforces_limits() {
    let (world, codecs, range) = fixture();
    let bytes = range.runs.iter().map(|run| run.schema_frame.len() + run.frames.len()).sum();
    let exact = WalRangeLimits { max_records: 2, max_bytes: bytes, max_control_frames: 4 };
    assert!(plan(&range, 0, exact, &world, &codecs).is_ok());
    for limit in [
        WalRangeLimits { max_records: 1, ..exact },
        WalRangeLimits { max_bytes: bytes - 1, ..exact },
        WalRangeLimits { max_control_frames: 3, ..exact },
        WalRangeLimits { max_records: 0, ..exact },
        WalRangeLimits { max_bytes: 0, ..exact },
        WalRangeLimits { max_control_frames: 0, ..exact },
    ] {
        assert!(plan(&range, 0, limit, &world, &codecs).is_err());
    }
    let mut oversized = range;
    oversized.runs[1].frames = vec![0; FRAME_HEADER_SIZE as usize];
    oversized.runs[1].frames[..4].copy_from_slice(&(MAX_FRAME_SIZE as u32).to_le_bytes());
    assert!(plan(&oversized, 0, limits(), &world, &codecs).is_err());
}

#[test]
fn raw_plan_propagates_partial_apply_failure() {
    let (mut world, codecs, mut range) = fixture();
    range.runs[1].frames = frame(
        &record(1, world.tick + 1, vec![insert(ENTITY, 0, 20), insert(999, 0, 30)]),
        3,
    );
    let (planned, runs) = plan(&range, 0, limits(), &world, &codecs).unwrap();
    let outcomes = apply_plan(&planned, &runs, &mut world, &codecs);
    assert!(matches!(planned.execute(&outcomes), Err(WalError::Apply(_))));
    assert_eq!(world.rows[&ENTITY][&0], le(10));
    assert_eq!(world.rows[&ENTITY][&1], le(20));
}

#[test]
fn wal_frames_round_trip_divergent_live_follower() {
    let source = codecs(&["value", "health", "name"]);
    let target = codecs(&["name", "value", "health"]);
    let mut leader = World::new(&["value", "health", "name"]);
    let mut replica = World::new(&["health", "name", "value"]);
    leader.rows.insert(1, BTreeMap::from([(0, le(1)), (2, b"baseline".to_vec())]));
    replica.rows.insert(1, BTreeMap::from([(2, le(1)), (1, b"baseline".to_vec())]));
    let mut log = Log::create(source.clone(), WalConfig::default());
    let own = BTreeMap::from([(0usize, 0usize), (1, 1), (2, 2)]);
    let remap = |world: &World| {
        own.iter()
            .map(|(id, codec)| {
                let world_id = world.column(&source.entries[*codec].name);
                let bound = minkowski_persist::apply::ApplyComponent {
                    codec_id: *codec,
                    world_id: Some(world_id),
                };
                (*id, bound)
            })
            .collect::<ApplyRemap>()
    };
    let leader_remap = remap(&leader);
    let commit = |log: &mut Log, leader: &mut World, mutations: Vec<SerializedMutation>| {
        let tick = leader.tick;
        let seq = log.append(mutations.clone(), tick);
        let written = WalRecord { seq, mutations, tick_after: tick };
        leader.apply(&written, &log.codecs, &leader_remap, true).unwrap();
    };
    // Sequence 0 belongs to the equivalent, nonempty baseline. The fetch starts
    // in the middle of this segment and crosses into the next one.
    commit(&mut log, &mut leader, vec![]);
    replica.tick = leader.tick;
    assert_eq!(fingerprint(&leader), fingerprint(&replica));
    log.wal.views.bump();
    log.acknowledge(1).unwrap();
    commit(
        &mut log,
        &mut leader,
        vec![
            SerializedMutation::Spawn {
                entity: 2,
                components: vec![(0, le(3)), (2, b"spawned".to_vec())],
            },
            SerializedMutation::Insert { entity: 2, component_id: 1, data: vec![42] },
            SerializedMutation::Insert { entity: 1, component_id: 2, data: b"updated".to_vec() },
        ],
    );
    log.roll();
    log.wal.views.bump();
    log.acknowledge(2).unwrap();
    commit(
        &mut log,
        &mut leader,
        vec![
            SerializedMutation::Insert { entity: 2, component_id: 0, data: le(9) },
            SerializedMutation::Remove { entity: 1, component_id: 2 },
        ],
    );
    let range = log.wal.records_from(1, limits(), &log.images()).unwrap();
    assert_eq!((range.from_seq, range.next_seq, range.seed_view), (1, 3, 1));
    assert_eq!(range.runs.len(), 2);
    let (planned, runs) = plan(&range, 0, limits(), &replica, &target).unwrap();
    let outcomes = apply_plan(&planned, &runs, &mut replica, &target);
    let (last_seq, fence) = planned.execute(&outcomes).unwrap();
    assert_eq!((last_seq + 1, fence), (3, 2));
    assert_eq!(fingerprint(&leader), fingerprint(&replica));
    assert_eq!(replica.tick, leader.tick);
    assert_eq!(replica.rows[&2][&1], b"spawned".to_vec());
}

fn test_schema() -> WalSchema {
    codecs(&["pos"]).build_schema()
}

/// Applies what a follower is due of a batch.
fn advance(
    follower: &mut Follower,
    batch: &ReplicationBatch,
    world: &mut World,
    codecs: &Codecs,
) -> Result<u64, FollowerError> {
    let binding = bind(&batch.schema, codecs);
    let pairs = binding.clone().unwrap_or_default();
    let remap: ApplyRemap = pairs
        .into_iter()
        .map(|(id, codec_id)| {
            let world_id = Some(world.column(&codecs.entries[codec_id].name));
            (id, minkowski_persist::apply::ApplyComponent { codec_id, world_id })
        })
        .collect();
    let tick = world.tick;
    let mut outcomes = Vec::new();
    if !follower.is_poisoned() {
        let mut due = follower.applied_seq();
        for r in &batch.records {
            if r.seq < due {
                continue;
            }
            if r.seq != due || r.tick_after < world.tick {
                break;
            }
            let outcome = world.apply(r, codecs, &remap, true);
            due += 1;
            let failed = outcome.is_err();
            outcomes.push(outcome);
            if failed {
                break;
            }
        }
    }
    follower.advance(batch, &binding, tick, &outcomes)
}

#[test]
fn apply_batch_spawns_entities() {
    let mut log = Log::create(codecs(&["pos"]), WalConfig::default());
    log.spawns(3);
    let images = log.images();
    let mut cursor = WalCursor::open(&images, 0).unwrap();
    let place = cursor.locate(&images).unwrap();
    let batch = cursor.next_batch(100, &images, place).unwrap();
    let mut replica = World::new(&["pos"]);
    let mut follower = Follower::new();
    assert_eq!(advance(&mut follower, &batch, &mut replica, &codecs(&["pos"])).unwrap(), 3);
    assert_eq!(replica.values("pos").len(), 3);
    let binding = bind(&batch.schema, &log.codecs);
    let outcomes = vec![Ok(()), Ok(()), Ok(())];
    assert_eq!(apply_batch(&batch, &binding, &outcomes).unwrap(), Some(2));
}

/// A batch of everything in a log.
fn whole_batch(log: &Log) -> ReplicationBatch {
    let images = log.images();
    let mut cursor = WalCursor::open(&images, 0).unwrap();
    let place = cursor.locate(&images).unwrap();
    cursor.next_batch(100, &images, place).unwrap()
}

#[test]
fn apply_batch_replicates_heap_component() {
    let mut log = Log::create(codecs(&["note"]), WalConfig::default());
    let note = b"replicated".to_vec();
    let components = vec![(0, note.clone())];
    log.append(vec![SerializedMutation::Spawn { entity: 0, components }], 0);
    let mut replica = World::new(&["note"]);
    let batch = whole_batch(&log);
    advance(&mut Follower::new(), &batch, &mut replica, &codecs(&["note"])).unwrap();
    assert_eq!(replica.values("note"), vec![note]);
}

#[test]
fn apply_batch_insert_remove() {
    let mut log = Log::create(codecs(&["pos", "health"]), WalConfig::default());
    log.append(spawn(0, 1), 0);
    log.append(
        vec![
            insert(0, 1, 100),
            SerializedMutation::Remove { entity: 0, component_id: 0 },
        ],
        1,
    );
    let mut replica = World::new(&["pos", "health"]);
    let batch = whole_batch(&log);
    advance(&mut Follower::new(), &batch, &mut replica, &log.codecs).unwrap();
    assert_eq!(replica.values("health"), vec![le(100)]);
    assert!(replica.values("pos").is_empty());
}

#[test]
fn apply_batch_cross_process_remap() {
    // Source: pos 0, health 1. Replica: health 0, pos 1.
    let mut log = Log::create(codecs(&["pos", "health"]), WalConfig::default());
    let components = vec![(0, le(12)), (1, le(50))];
    log.append(vec![SerializedMutation::Spawn { entity: 0, components }], 0);
    let mut replica = World::new(&["health", "pos"]);
    let batch = whole_batch(&log);
    let reversed = codecs(&["health", "pos"]);
    advance(&mut Follower::new(), &batch, &mut replica, &reversed).unwrap();
    assert_eq!(replica.values("pos"), vec![le(12)]);
    assert_eq!(replica.values("health"), vec![le(50)]);
}

#[test]
fn apply_batch_preserves_transaction_boundaries() {
    let mut log = Log::create(codecs(&["pos"]), WalConfig::default());
    log.append(spawn(0, 1), 0);
    log.append(vec![SerializedMutation::Despawn { entity: 0 }], 1);
    let batch = whole_batch(&log);
    assert_eq!(batch.records.len(), 2);
    let mut replica = World::new(&["pos"]);
    advance(&mut Follower::new(), &batch, &mut replica, &log.codecs).unwrap();
    assert!(replica.values("pos").is_empty());
}

#[test]
fn apply_empty_batch() {
    let batch = ReplicationBatch {
        schema: WalSchema { components: vec![] },
        records: vec![],
    };
    let last_seq = apply_batch(&batch, &Ok(Vec::new()), &Vec::new()).unwrap();
    assert_eq!(last_seq, None);
}

#[test]
fn apply_batch_unknown_component_returns_error() {
    let batch = ReplicationBatch {
        schema: WalSchema {
            components: vec![ComponentSchema {
                id: 0,
                name: "nonexistent_component".into(),
                size: 8,
                align: 4,
            }],
        },
        records: vec![WalRecord { tick_after: 0, seq: 0, mutations: vec![] }],
    };
    let binding = bind(&batch.schema, &codecs(&[]));
    let result = apply_batch(&batch, &binding, &Vec::new());
    assert_eq!(result.unwrap_err(), ReplicationError::Codec(binding.unwrap_err()));
}

#[test]
fn apply_batch_reports_the_failed_record() {
    let failure = WalError::Apply("dead".to_string());
    let batch = ReplicationBatch {
        schema: WalSchema { components: vec![] },
        records: vec![
            WalRecord { seq: 4, mutations: vec![], tick_after: 1 },
            WalRecord { seq: 5, mutations: vec![], tick_after: 2 },
        ],
    };
    let outcomes = vec![Ok(()), Err(failure.clone())];
    assert_eq!(
        apply_batch(&batch, &Ok(Vec::new()), &outcomes),
        Err(ReplicationError::from_wal(failure))
    );
}

#[test]
fn follower_skips_applied_prefix() {
    let mut log = Log::create(codecs(&["pos"]), WalConfig::default());
    log.spawns(5);
    let images = log.images();
    let mut cursor = WalCursor::open(&images, 0).unwrap();
    let place = cursor.locate(&images).unwrap();
    let batch = cursor.next_batch(100, &images, place).unwrap();
    let mut replica = World::new(&["pos"]);
    let mut follower = Follower::new();
    let first = advance(&mut follower, &batch, &mut replica, &log.codecs).unwrap();
    let second = advance(&mut follower, &batch, &mut replica, &log.codecs).unwrap();
    assert_eq!(first, second);
    assert!(!follower.is_poisoned());
}

#[test]
fn follower_poisons_on_mid_batch_failure() {
    let batch = ReplicationBatch {
        schema: test_schema(),
        records: vec![
            WalRecord { tick_after: 1, seq: 0, mutations: spawn(0, 1) },
            WalRecord {
                tick_after: 2,
                seq: 1,
                mutations: vec![SerializedMutation::Despawn { entity: 99 }],
            },
        ],
    };
    let mut replica = World::new(&["pos"]);
    let codecs = codecs(&["pos"]);
    let mut follower = Follower::new();
    let err = advance(&mut follower, &batch, &mut replica, &codecs).unwrap_err();
    assert!(matches!(err, FollowerError::Apply(_)), "got: {err:?}");
    assert!(follower.is_poisoned());
    // State is exactly the applied prefix: entity 0 exists.
    assert!(replica.rows.contains_key(&0));
    assert_eq!(follower.applied_seq(), 1);
    // Poisoned forever: advance and read_at refuse.
    assert!(matches!(
        advance(&mut follower, &batch, &mut replica, &codecs),
        Err(FollowerError::Poisoned)
    ));
    assert!(matches!(follower.read_at(1), Err(FollowerError::Poisoned)));
}

#[test]
fn follower_tick_regression_poisons() {
    let mut replica = World::new(&["pos"]);
    replica.tick = 50;
    let batch = ReplicationBatch {
        schema: test_schema(),
        records: vec![WalRecord {
            tick_after: 10, // below the world's current tick 50
            seq: 0,
            mutations: vec![SerializedMutation::Despawn { entity: 5u64 << 32 }],
        }],
    };
    let mut follower = Follower::new();
    assert!(matches!(
        advance(&mut follower, &batch, &mut replica, &codecs(&["pos"])),
        Err(FollowerError::TickRegression { .. })
    ));
    assert!(follower.is_poisoned());
}

#[test]
fn read_at_bounds() {
    let mut replica = World::new(&["pos"]);
    let mut follower = Follower::new();
    // Nothing applied: any read is stale.
    assert!(matches!(
        follower.read_at(0),
        Err(FollowerError::Stale { requested: 0, applied_seq: 0 })
    ));
    let batch = ReplicationBatch {
        schema: test_schema(),
        records: vec![WalRecord { tick_after: 1, seq: 0, mutations: spawn(0, 1) }],
    };
    advance(&mut follower, &batch, &mut replica, &codecs(&["pos"])).unwrap();
    assert_eq!(follower.applied_seq(), 1);
    follower.read_at(0).unwrap();
    assert_eq!(replica.rows.len(), 1);
    assert!(matches!(
        follower.read_at(1),
        Err(FollowerError::Stale { requested: 1, applied_seq: 1 })
    ));
}

#[test]
fn follower_gap_poisons() {
    let batch = ReplicationBatch {
        schema: test_schema(),
        records: vec![WalRecord {
            tick_after: 1,
            seq: 3, // nothing is applied: this is a gap, not the next record
            mutations: vec![SerializedMutation::Despawn { entity: 0 }],
        }],
    };
    let mut replica = World::new(&["pos"]);
    let mut follower = Follower::new();
    assert!(matches!(
        advance(&mut follower, &batch, &mut replica, &codecs(&["pos"])),
        Err(FollowerError::Gap { expected: 0, got: 3 })
    ));
    assert!(follower.is_poisoned());
}

#[test]
fn record_at_a_time_admission() {
    let mut follower = Follower::default();
    let r = |seq, tick_after| WalRecord { seq, mutations: vec![], tick_after };
    assert_eq!(follower.consider(&r(0, 4), 4), Ok(Admission::Apply { next_tick: 5 }));
    assert_eq!(follower.apply_next(0, Ok(())), Ok(()));
    assert_eq!(follower.applied_seq(), 1);
    assert_eq!(follower.consider(&r(0, 4), 5), Ok(Admission::Skip));
    assert_eq!(
        follower.consider(&r(1, 4), 5),
        Err(FollowerError::TickRegression { seq: 1, record_tick: 4, world_tick: 5 })
    );
    assert_eq!(follower.apply_next(1, Ok(())), Err(FollowerError::Poisoned));
}

fn convergence_record(seq: u64, live: &mut Vec<u64>, x: &mut u64) -> Vec<SerializedMutation> {
    let mut next = || {
        *x ^= *x << 13;
        *x ^= *x >> 7;
        *x ^= *x << 17;
        *x
    };
    let roll = next() % 4;
    if roll == 0 || live.is_empty() {
        live.push(seq);
        let mut components = vec![(0, le(seq as i32))];
        if seq % 2 == 0 {
            components.push((1, format!("entity-{seq}").into_bytes()));
        }
        return vec![SerializedMutation::Spawn { entity: seq, components }];
    }
    let at = next() as usize % live.len();
    match roll {
        1 => vec![insert(live[at], 2, seq as i32)],
        2 => vec![SerializedMutation::Remove { entity: live[at], component_id: 2 }],
        _ => vec![SerializedMutation::Despawn { entity: live.swap_remove(at) }],
    }
}

#[test]
fn convergence_100_transactions_leader_replica() {
    let names = ["pos", "name", "health"];
    let mut log = Log::create(codecs(&names), WalConfig::default());
    let mut leader = World::new(&names);
    let identity: ApplyRemap = (0..3)
        .map(|id| {
            let c = minkowski_persist::apply::ApplyComponent { codec_id: id, world_id: Some(id) };
            (id, c)
        })
        .collect();
    let mut live = Vec::new();
    let mut x = 12345u64;
    for seq in 0..100 {
        let mutations = convergence_record(seq, &mut live, &mut x);
        // Durable commit order: the log first, at the tick before, then apply.
        let tick_after = leader.tick;
        log.append(mutations.clone(), tick_after);
        let written = WalRecord { seq, mutations, tick_after };
        leader.apply(&written, &log.codecs, &identity, true).unwrap();
    }
    let images = log.images();
    let mut cursor = WalCursor::open(&images, 0).unwrap();
    let mut replica = World::new(&["health", "name", "pos"]);
    let reg = codecs(&["health", "name", "pos"]);
    let mut follower = Follower::new();
    let mut last_seq = 0;
    loop {
        let place = cursor.locate(&images).unwrap();
        let batch = cursor.next_batch(10, &images, place).unwrap();
        if batch.records.is_empty() {
            break;
        }
        last_seq = advance(&mut follower, &batch, &mut replica, &reg).unwrap();
    }
    assert_eq!(last_seq, 100);
    assert_eq!(follower.applied_seq(), last_seq);
    assert!(!follower.is_poisoned());
    assert_eq!(fingerprint(&leader), fingerprint(&replica));
    assert_eq!(leader.tick, replica.tick);
}

fn encode_journal(entry: &JournalEntry) -> Vec<u8> {
    let mut out = entry.history.to_vec();
    put_u64(&mut out, entry.range.from_seq);
    put_u64(&mut out, entry.range.next_seq);
    put_u64(&mut out, entry.range.seed_view);
    put_u64(&mut out, entry.range.runs.len() as u64);
    for run in &entry.range.runs {
        put_u64(&mut out, run.segment_start_seq);
        put_bytes(&mut out, &run.schema_frame);
        put_bytes(&mut out, &run.frames);
    }
    out
}

fn decode_journal(bytes: &[u8]) -> Result<JournalEntry, String> {
    if bytes.len() < 16 {
        return Err("short entry".to_string());
    }
    let mut r = Reader { bytes: &bytes[16..] };
    let mut range = WalFrameRange {
        from_seq: r.number()?,
        next_seq: r.number()?,
        seed_view: r.number()?,
        runs: Vec::new(),
    };
    for _ in 0..r.number()? {
        range.runs.push(WalSegmentRun {
            segment_start_seq: r.number()?,
            schema_frame: r.blob()?,
            frames: r.blob()?,
        });
    }
    Ok(JournalEntry { history: bytes[..16].try_into().unwrap(), range })
}

/// The follower's side of a host: its world, its journal and its codecs.
struct Host {
    world: World,
    journal: Vec<u8>,
    codecs: Codecs,
}

/// What the host's disk does with a journal write.
#[derive(Clone, Copy, PartialEq)]
enum Fault {
    Absent,
    Write,
    Sync,
}

impl Host {
    fn new(header: Vec<u8>, names: &[&str]) -> Host {
        Host { world: World::new(names), journal: header, codecs: codecs(names) }
    }

    fn work(
        &mut self,
        follower: &JournaledFollower,
        history: [u8; 16],
        range: &WalFrameRange,
        fault: Fault,
    ) -> RangeWork {
        let runs =
            decode_range(range, follower.applied_seq(), follower.range_limits(), &self.codecs);
        let payload = encode_journal(&JournalEntry { history, range: range.clone() });
        let mut outcomes = Vec::new();
        if let Ok(Some(plan)) = follower.prepare(&history, range, &runs) {
            if fault != Fault::Write {
                let frame = JournaledFollower::entry_frame(&payload).unwrap();
                self.journal.extend_from_slice(&frame);
            }
            if fault == Fault::Absent {
                outcomes = apply_plan(&plan, &runs, &mut self.world, &self.codecs);
            }
        }
        let outcome = |on: Fault| if fault == on { Err(broken()) } else { Ok(()) };
        RangeWork {
            decoded: runs,
            payload: Ok(payload),
            io: JournalIo { write: outcome(Fault::Write), sync: outcome(Fault::Sync) },
            outcomes,
        }
    }

    fn ingest(
        &mut self,
        follower: &mut JournaledFollower,
        history: [u8; 16],
        range: &WalFrameRange,
        fault: Fault,
    ) -> Result<u64, IngestError> {
        let w = self.work(follower, history, range, fault);
        follower.ingest_frames(&history, range, &w.decoded, w.payload, w.io, &w.outcomes)
    }

    fn pump<F: Fetch>(&mut self, pump: &mut ReplicationPump<F>) -> Result<u64, PumpError> {
        let fetched = pump.fetch_next()?;
        self.deliver(pump, fetched)
    }

    fn deliver<F>(
        &mut self,
        pump: &mut ReplicationPump<F>,
        fetched: Result<FetchResponse, TransportError>,
    ) -> Result<u64, PumpError> {
        let work = match &fetched {
            Ok(response) => {
                self.work(pump.follower(), response.history, &response.range, Fault::Absent)
            }
            Err(_) => RangeWork {
                decoded: Vec::new(),
                payload: Ok(Vec::new()),
                io: JournalIo { write: Ok(()), sync: Ok(()) },
                outcomes: Vec::new(),
            },
        };
        pump.pump_once(fetched, work)
    }

    fn pump_session(
        &mut self,
        pump: &mut ReplicationPump<SessionFetch>,
        source: &mut Replicated,
        log: &Log,
    ) -> Result<u64, PumpError> {
        let request = pump.request()?;
        let fetched = source.fetch_session(
            pump.fetch(),
            request.from_seq,
            request.limits,
            &log.wal,
            &log.images(),
        );
        self.deliver(pump, fetched)
    }
}

fn empty_shape() -> WorldShape {
    World::new(&["name", "value"]).shape()
}

fn create(history: [u8; 16], limits: WalRangeLimits) -> (Host, JournaledFollower) {
    let (follower, header) =
        JournaledFollower::create(history, codecs(&["name", "value"]), empty_shape(), limits)
            .unwrap();
    (Host::new(header, &["name", "value"]), follower)
}

/// Reopens a journal: replays it into an empty world and cuts its torn tail.
fn reopen(
    journal: Vec<u8>,
    history: [u8; 16],
    limits: WalRangeLimits,
) -> Result<(Host, JournaledFollower), IngestError> {
    reopen_as(journal, history, limits, &["name", "value"])
}

/// Reopens a journal with codecs registered in the order of `names`.
fn reopen_as(
    journal: Vec<u8>,
    history: [u8; 16],
    limits: WalRangeLimits,
    names: &[&str],
) -> Result<(Host, JournaledFollower), IngestError> {
    let mut host = Host::new(Vec::new(), names);
    let shape = host.world.shape();
    let mut work = Vec::new();
    let mut shadow =
        JournaledFollower::begin_open(&journal, history, host.codecs.clone(), shape.clone(), limits)?;
    let mut pos = JOURNAL_HEADER_SIZE as usize;
    while let Ok(JournalStep::Entry(frame)) = read_journal(&journal, pos) {
        pos = frame.next_offset() as usize;
        let entry = decode_journal(frame.payload_bytes());
        let mut decoded = Vec::new();
        let mut outcomes = Vec::new();
        let mut failed = true;
        if let Ok(entry) = &entry {
            decoded = decode_range(&entry.range, shadow.applied_seq(), limits, &host.codecs);
            if let Ok(Some(plan)) = shadow.prepare(&entry.history, &entry.range, &decoded) {
                outcomes = apply_plan(&plan, &decoded, &mut host.world, &host.codecs);
            }
            failed = shadow.replay_entry(entry, &decoded, &outcomes).is_err();
        }
        work.push(EntryWork { entry, decoded, outcomes });
        if failed {
            break;
        }
    }
    let (follower, keep) = JournaledFollower::open(
        &journal,
        history,
        host.codecs.clone(),
        shape.clone(),
        limits,
        &work,
    )?;
    host.journal = journal;
    host.journal.truncate(keep as usize);
    Ok((host, follower))
}

/// A source with two records, a checkpoint between them, and its world.
fn source() -> (Log, World) {
    let mut log = Log::create(codecs(&["value", "name"]), WalConfig::default());
    log.append(
        vec![SerializedMutation::Spawn {
            entity: 1,
            components: vec![(0, le(1)), (1, b"initial".to_vec())],
        }],
        0,
    );
    log.wal.views.bump();
    log.acknowledge(1).unwrap();
    log.append(
        vec![SerializedMutation::Insert { entity: 1, component_id: 1, data: b"updated".to_vec() }],
        1,
    );
    let mut world = World::new(&["value", "name"]);
    world.tick = 2;
    world.rows.insert(1, BTreeMap::from([(0, le(1)), (1, b"updated".to_vec())]));
    (log, world)
}

fn all(log: &Log) -> WalFrameRange {
    log.wal.records_from(0, limits(), &log.images()).unwrap()
}

fn one() -> WalRangeLimits {
    WalRangeLimits { max_records: 1, ..limits() }
}

#[test]
fn journaled_follower_round_trip_and_restart() {
    let (log, world) = source();
    let range = all(&log);
    let (mut host, mut follower) = create(HISTORY, limits());
    assert_eq!(follower.applied_seq(), 0);
    assert!(follower.read_at(0).is_err());
    assert_eq!(host.ingest(&mut follower, HISTORY, &range, Fault::Absent).unwrap(), 2);
    follower.read_at(1).unwrap();
    assert_eq!(fingerprint(&host.world), fingerprint(&world));
    assert_eq!(host.world.tick, world.tick);
    assert_eq!(follower.world_shape().tick, world.tick);
    let (host, follower) = reopen(host.journal, HISTORY, limits()).unwrap();
    assert_eq!(follower.applied_seq(), 2);
    assert_eq!(follower.view(), 1);
    assert_eq!(host.world.values("name"), vec![b"updated".to_vec()]);
    assert_eq!(fingerprint(&host.world), fingerprint(&world));
}

#[test]
fn journaled_follower_deduplicates_overlap_and_controls() {
    let (mut log, world) = source();
    let first = log.wal.records_from(0, one(), &log.images()).unwrap();
    let (mut host, mut follower) = create(HISTORY, limits());
    assert_eq!(host.ingest(&mut follower, HISTORY, &first, Fault::Absent).unwrap(), 1);
    let len = host.journal.len();
    assert_eq!(host.ingest(&mut follower, HISTORY, &first, Fault::Absent).unwrap(), 1);
    assert_eq!(host.journal.len(), len);
    let overlap = all(&log);
    assert_eq!(host.ingest(&mut follower, HISTORY, &overlap, Fault::Absent).unwrap(), 2);
    // Replaying old view-zero bytes after applying view one is a duplicate,
    // not a stale new mutation, and must not regress the restored fence.
    assert_eq!(host.ingest(&mut follower, HISTORY, &first, Fault::Absent).unwrap(), 2);
    assert_eq!(follower.view(), 1);
    log.wal.views.bump();
    log.acknowledge(2).unwrap();
    let tail = log.wal.records_from(2, limits(), &log.images()).unwrap();
    let len = host.journal.len();
    assert_eq!(host.ingest(&mut follower, HISTORY, &tail, Fault::Absent).unwrap(), 2);
    assert!(host.journal.len() > len);
    assert_eq!(follower.view(), 2);
    assert_eq!(host.world.tick, world.tick);
    let (host, follower) = reopen(host.journal, HISTORY, limits()).unwrap();
    assert_eq!(follower.applied_seq(), 2);
    assert_eq!(follower.view(), 2);
    assert_eq!(fingerprint(&host.world), fingerprint(&world));
}

#[test]
fn restart_accepts_codecs_in_another_order() {
    let (log, world) = source();
    let (mut host, mut follower) = create(HISTORY, limits());
    host.ingest(&mut follower, HISTORY, &all(&log), Fault::Absent).unwrap();
    let names = ["value", "name"];
    let (other, restored) = reopen_as(host.journal, HISTORY, limits(), &names).unwrap();
    assert_eq!(restored.applied_seq(), follower.applied_seq());
    assert_eq!(restored.view(), follower.view());
    assert!(!restored.is_poisoned());
    assert_eq!(fingerprint(&other.world), fingerprint(&host.world));
    assert_eq!(fingerprint(&other.world), fingerprint(&world));
    assert_eq!(other.world.tick, host.world.tick);
}

#[test]
fn ingested_view_is_the_highest_of_the_range() {
    let mut log = Log::create(codecs(&["value", "name"]), WalConfig::default());
    log.append(vec![], 0);
    log.wal.bump_view();
    log.acknowledge(1).unwrap();
    log.append(vec![], 1);
    log.wal.bump_view();
    log.acknowledge(2).unwrap();
    let (mut host, mut follower) = create(HISTORY, limits());
    let range = all(&log);
    host.ingest(&mut follower, HISTORY, &range, Fault::Absent).unwrap();
    assert_eq!((range.seed_view, follower.view()), (0, 1));
    // The tail's seed carries the last control; then the first is a duplicate.
    let tail = log.wal.records_from(2, limits(), &log.images()).unwrap();
    host.ingest(&mut follower, HISTORY, &tail, Fault::Absent).unwrap();
    assert_eq!(follower.view(), 2);
    let len = host.journal.len();
    assert_eq!(host.ingest(&mut follower, HISTORY, &range, Fault::Absent).unwrap(), 2);
    assert_eq!((host.journal.len(), follower.view()), (len, 2));
}

#[test]
fn next_range_is_seeded_above_the_followers_view() {
    let mut log = Log::create(codecs(&["value", "name"]), WalConfig::default());
    for seq in 0..5 {
        log.append(vec![], seq);
        log.wal.views.bump();
        if seq % 2 == 0 {
            log.acknowledge(seq + 1).unwrap();
        }
    }
    let (mut host, mut follower) = create(HISTORY, one());
    for next in 1..=5 {
        let images = log.images();
        let range = log.wal.records_from(follower.applied_seq(), one(), &images).unwrap();
        assert!(follower.view() <= range.seed_view);
        assert_eq!(host.ingest(&mut follower, HISTORY, &range, Fault::Absent).unwrap(), next);
    }
}

#[test]
fn journaled_follower_refuses_invalid_input() {
    let (log, _) = source();
    for case in ["history", "crc", "gap", "schema", "bounds"] {
        let (mut host, mut follower) = create(HISTORY, limits());
        let len = host.journal.len();
        let tick = host.world.tick;
        let mut range = all(&log);
        let mut history = HISTORY;
        match case {
            "history" => history[0] ^= 1,
            "crc" => {
                *range.runs[0].frames.last_mut().unwrap() ^= 1;
            }
            "gap" => range = log.wal.records_from(1, limits(), &log.images()).unwrap(),
            "schema" => range.runs[0].schema_frame.clear(),
            "bounds" => range.next_seq += 1,
            _ => unreachable!(),
        }
        assert!(host.ingest(&mut follower, history, &range, Fault::Absent).is_err(), "{case}");
        assert!(follower.is_poisoned());
        assert_eq!(follower.applied_seq(), 0);
        assert_eq!(host.world.tick, tick);
        assert!(host.world.rows.is_empty());
        assert_eq!(host.journal.len(), len);
        assert!(matches!(follower.read_at(0), Err(FollowerError::Poisoned)));
        assert!(host.ingest(&mut follower, HISTORY, &all(&log), Fault::Absent).is_err());
    }
}

#[test]
fn ingestion_errors_are_told_apart() {
    let (log, _) = source();
    let (mut host, mut follower) = create(HISTORY, limits());
    assert_eq!(
        host.ingest(&mut follower, [9; 16], &all(&log), Fault::Absent),
        Err(IngestError::HistoryMismatch)
    );
    let (mut host, mut follower) = create(HISTORY, limits());
    let gap = log.wal.records_from(1, limits(), &log.images()).unwrap();
    assert_eq!(
        host.ingest(&mut follower, HISTORY, &gap, Fault::Absent),
        Err(IngestError::Follower(FollowerError::Gap { expected: 0, got: 1 }))
    );
    let none = WalRangeLimits { max_records: 0, ..limits() };
    assert_eq!(
        JournaledFollower::create(HISTORY, codecs(&[]), empty_shape(), none).err().unwrap(),
        IngestError::Wal(WalError::InvalidRangeLimits)
    );
}

/// A range of one record that spawns a flag with this byte.
fn flag_range(byte: u8) -> WalFrameRange {
    let mut log = Log::create(codecs(&["flag"]), WalConfig::default());
    log.append(Vec::new(), 1);
    let mut range = all(&log);
    let spawned = SerializedMutation::Spawn { entity: 0, components: vec![(0, vec![byte])] };
    range.runs[0].frames = frame(&record(0, 1, vec![spawned]), 0);
    range
}

fn flag_follower() -> (Host, JournaledFollower) {
    let shape = World::new(&["flag"]).shape();
    let (follower, header) =
        JournaledFollower::create(HISTORY, codecs(&["flag"]), shape, limits()).unwrap();
    (Host::new(header, &["flag"]), follower)
}

#[test]
fn journaled_follower_checks_component_bytes_despite_valid_crc() {
    let range = flag_range(2);
    let (mut host, mut follower) = flag_follower();
    assert!(matches!(
        host.ingest(&mut follower, HISTORY, &range, Fault::Absent),
        Err(IngestError::Follower(FollowerError::Apply(WalError::Codec(CodecError::Other(_)))))
    ));
    assert_eq!(follower.applied_seq(), 0);
    assert!(host.world.rows.is_empty());
    assert!(matches!(follower.read_at(0), Err(FollowerError::Poisoned)));
    assert!(reopen_as(host.journal, HISTORY, limits(), &["flag"]).is_err());
}

#[test]
fn failed_entry_gives_the_same_error_on_restart() {
    let (mut host, mut follower) = flag_follower();
    let first = host.ingest(&mut follower, HISTORY, &flag_range(2), Fault::Absent).unwrap_err();
    let again = reopen_as(host.journal, HISTORY, limits(), &["flag"]).err().unwrap();
    assert_eq!(again, first);
    let (mut host, mut follower) = flag_follower();
    assert_eq!(host.ingest(&mut follower, HISTORY, &flag_range(1), Fault::Absent), Ok(1));
    assert_eq!(host.world.values("flag"), vec![vec![1]]);
}

#[test]
fn received_plans_are_checked_and_replayed_ones_are_not() {
    let mut log = Log::create(codecs(&["flag"]), WalConfig::default());
    log.append(Vec::new(), 1);
    let range = flag_range(2);
    let (host, follower) = flag_follower();
    let runs = decode_range(&range, 0, limits(), &host.codecs);
    let received = follower.prepare(&HISTORY, &range, &runs).unwrap().unwrap();
    assert!(received.checked);
    let shape = host.world.shape();
    let from_frames =
        ValidatedRange::from_frames(&range, &runs, 0, limits(), &shape, &host.codecs).unwrap();
    assert!(from_frames.checked);
    let replayed = log.wal.replay(&log.images(), &shape, &host.codecs).unwrap();
    assert_eq!(replayed.records.len(), 1);
    assert!(!replayed.checked);
}

#[test]
fn restart_after_ranges_with_nothing_new_reconstructs_progress() {
    let (log, world) = source();
    let (mut host, mut follower) = create(HISTORY, limits());
    let first = log.wal.records_from(0, one(), &log.images()).unwrap();
    assert_eq!(host.ingest(&mut follower, HISTORY, &first, Fault::Absent), Ok(1));
    let len = host.journal.len();
    assert_eq!(host.ingest(&mut follower, HISTORY, &first, Fault::Absent), Ok(1));
    assert_eq!(host.journal.len(), len);
    assert_eq!(host.ingest(&mut follower, HISTORY, &all(&log), Fault::Absent), Ok(2));
    let len = host.journal.len();
    assert_eq!(host.ingest(&mut follower, HISTORY, &all(&log), Fault::Absent), Ok(2));
    assert_eq!(host.ingest(&mut follower, HISTORY, &first, Fault::Absent), Ok(2));
    assert_eq!(host.journal.len(), len);
    let (restored_host, restored) = reopen(host.journal, HISTORY, limits()).unwrap();
    assert_eq!(restored.applied_seq(), 2);
    assert_eq!(restored_host.journal.len(), len);
    assert_eq!(restored_host.world.tick, world.tick);
    assert_eq!(restored_host.world.rows, host.world.rows);
}

#[test]
fn last_number_that_is_not_due_is_a_gap() {
    let batch = ReplicationBatch {
        schema: WalSchema { components: Vec::new() },
        records: vec![
            WalRecord { seq: 0, mutations: Vec::new(), tick_after: 0 },
            WalRecord { seq: u64::MAX, mutations: Vec::new(), tick_after: 1 },
        ],
    };
    let mut follower = Follower::new();
    assert_eq!(
        follower.advance(&batch, &Ok(Vec::new()), 0, &vec![Ok(())]),
        Err(FollowerError::Gap { expected: 1, got: u64::MAX })
    );
    assert!(follower.is_poisoned());
    assert_eq!(follower.applied_seq(), 1);
}

#[test]
fn journaled_follower_failure_boundaries() {
    let (log, _) = source();
    let range = all(&log);
    for durable in [false, true] {
        let (mut host, mut follower) = create(HISTORY, limits());
        let old_len = host.journal.len();
        assert!(host.ingest(&mut follower, HISTORY, &range, Fault::Sync).is_err());
        assert_eq!(follower.applied_seq(), 0);
        assert!(host.world.rows.is_empty());
        assert!(follower.is_poisoned());
        assert!(matches!(follower.read_at(0), Err(FollowerError::Poisoned)));
        if !durable {
            host.journal.truncate(old_len);
        }
        let (_, restored) = reopen(host.journal, HISTORY, limits()).unwrap();
        assert_eq!(restored.applied_seq(), if durable { 2 } else { 0 });
    }

    let (mut host, mut follower) = create(HISTORY, limits());
    let tick = host.world.tick;
    let result = host.ingest(&mut follower, HISTORY, &range, Fault::Write);
    assert_eq!(result, Err(IngestError::Wal(WalError::Io(broken()))));
    assert_eq!(host.journal.len() as u64, JOURNAL_HEADER_SIZE);
    assert_eq!(follower.applied_seq(), 0);
    assert_eq!(host.world.tick, tick);
    assert!(host.world.rows.is_empty());
    assert!(follower.is_poisoned());
    assert!(matches!(follower.read_at(0), Err(FollowerError::Poisoned)));

    // A valid later record can still fail on world state after the first slot
    // applied. The complete journal is a replayable failure capture.
    let (mut host, mut follower) = create(HISTORY, limits());
    let mut bad = log.wal.records_from(0, one(), &log.images()).unwrap();
    bad.next_seq = 2;
    let despawn = record(1, 100, vec![SerializedMutation::Despawn { entity: 999 }]);
    bad.runs[0].frames.extend_from_slice(&frame(&despawn, 0));
    assert!(host.ingest(&mut follower, HISTORY, &bad, Fault::Absent).is_err());
    assert_eq!(follower.applied_seq(), 1);
    assert!(matches!(follower.read_at(0), Err(FollowerError::Poisoned)));
    assert!(matches!(
        reopen(host.journal, HISTORY, limits()),
        Err(IngestError::Follower(FollowerError::Apply(_)))
    ));
}

#[test]
fn journaled_follower_restart_reconstructs_progress() {
    let (log, world) = source();
    let range = all(&log);
    for partial_header in [false, true] {
        let (mut host, mut follower) = create(HISTORY, limits());
        host.ingest(&mut follower, HISTORY, &range, Fault::Absent).unwrap();
        let len = host.journal.len();
        if partial_header {
            host.journal.extend_from_slice(&[1, 2, 3]);
        } else {
            // Valid length guard, incomplete payload: an interrupted append.
            let bytes = write_frame(&[0; 100], !100u64).unwrap();
            host.journal.extend_from_slice(&bytes[..20]);
        }
        let (mut host, mut follower) = reopen(host.journal, HISTORY, limits()).unwrap();
        assert_eq!(follower.applied_seq(), 2);
        assert_eq!(host.world.tick, world.tick);
        assert_eq!(host.journal.len(), len);
        // Lost progress report: resending the whole durable range is safe.
        assert_eq!(host.ingest(&mut follower, HISTORY, &range, Fault::Absent).unwrap(), 2);
        assert_eq!(host.journal.len(), len);
    }
}

#[test]
fn journaled_follower_rejects_corrupt_history() {
    let (log, _) = source();
    let (mut host, mut follower) = create(HISTORY, limits());
    host.ingest(&mut follower, HISTORY, &all(&log), Fault::Absent).unwrap();
    assert!(matches!(
        reopen(host.journal.clone(), [0; 16], limits()),
        Err(IngestError::HistoryMismatch)
    ));
    let original = host.journal;
    for offset in [0, 4, JOURNAL_HEADER_SIZE as usize, original.len() - 1] {
        let mut bytes = original.clone();
        bytes[offset] ^= 1;
        assert!(reopen(bytes, HISTORY, limits()).is_err());
    }
    // A correctly checksummed entry from another history also refuses.
    let (mut host, _) = create(HISTORY, limits());
    let spliced = JournalEntry { history: [9; 16], range: all(&log) };
    let frame = JournaledFollower::entry_frame(&encode_journal(&spliced)).unwrap();
    host.journal.extend_from_slice(&frame);
    assert!(matches!(
        reopen(host.journal, HISTORY, limits()),
        Err(IngestError::HistoryMismatch)
    ));
}

#[test]
fn undecodable_journal_entry_is_reported() {
    let (mut host, _) = create(HISTORY, limits());
    let frame = JournaledFollower::entry_frame(b"junk").unwrap();
    host.journal.extend_from_slice(&frame);
    assert_eq!(
        reopen(host.journal, HISTORY, limits()).err().unwrap(),
        IngestError::Wal(WalError::Format(FormatIssue::InvalidJournalEntry {
            detail: "short entry".to_string()
        }))
    );
}

/// A source with four records in several segments and a final fence.
fn pull_source() -> (Log, World) {
    let config = WalConfig { max_segment_bytes: 512, ..WalConfig::default() };
    let mut log = Log::create(codecs(&["value", "name"]), config);
    let mut world = World::new(&["value", "name"]);
    for value in 0..4 {
        let mutations = if value == 0 {
            vec![SerializedMutation::Spawn {
                entity: 1,
                components: vec![(0, le(0)), (1, b"first".to_vec())],
            }]
        } else {
            vec![
                insert(1, 0, value),
                SerializedMutation::Insert {
                    entity: 1,
                    component_id: 1,
                    data: format!("value-{value}").into_bytes(),
                },
            ]
        };
        log.append(mutations, value as u64);
        world.tick = value as u64 + 1;
    }
    world.rows.insert(1, BTreeMap::from([(0, le(3)), (1, b"value-3".to_vec())]));
    // The final empty fetch must ingest this fence without claiming more slots.
    log.wal.views.bump();
    log.acknowledge(4).unwrap();
    (log, world)
}

fn pull_limits() -> WalRangeLimits {
    WalRangeLimits { max_records: 1, max_bytes: 64 * 1024, max_control_frames: 64 }
}

#[test]
fn pull_pump_reports_only_ingested_progress() {
    let (log, world) = pull_source();
    let images = log.images();
    let (mut host, follower) = create(HISTORY, pull_limits());
    let fetch = RecordingFetch::new(LoopbackFetch::new(&log.wal, &images, HISTORY));
    let mut pump = ReplicationPump::new(follower, fetch);
    for next in 1..=4 {
        assert_eq!(host.pump(&mut pump).unwrap(), next);
        assert_eq!(pump.fetch().requests().last().unwrap().from_seq, next - 1);
        assert_eq!(pump.follower().applied_seq(), next);
    }
    assert_eq!(pump.follower().view(), 0);
    assert_eq!(host.pump(&mut pump).unwrap(), 4);
    assert_eq!(pump.follower().view(), 1);
    let asked: Vec<u64> = pump.fetch().requests().iter().map(|r| r.from_seq).collect();
    assert_eq!(asked, [0, 1, 2, 3, 4]);
    for request in pump.fetch().requests() {
        assert_eq!(request.limits, pull_limits());
    }
    pump.follower().read_at(3).unwrap();
    assert_eq!(fingerprint(&host.world), fingerprint(&world));
    assert_eq!(host.world.tick, world.tick);
    assert_eq!(host.world.values("value"), vec![le(3)]);
    let (_, mut fetch) = pump.into_parts();
    assert_eq!(fetch.take_requests().len(), 5);
    assert!(fetch.requests().is_empty());
}

#[test]
fn pull_pump_restart_reports_reconstructed_progress() {
    let (log, world) = pull_source();
    let images = log.images();
    for applied in [1, 4] {
        let (mut host, follower) = create(HISTORY, pull_limits());
        let fetch = LoopbackFetch::new(&log.wal, &images, HISTORY);
        let mut pump = ReplicationPump::new(follower, fetch);
        for _ in 0..applied {
            host.pump(&mut pump).unwrap();
        }
        // Crash after durable application, before the next request reports it.
        let (mut host, follower) = reopen(host.journal, HISTORY, pull_limits()).unwrap();
        let fetch = RecordingFetch::new(LoopbackFetch::new(&log.wal, &images, HISTORY));
        let mut pump = ReplicationPump::new(follower, fetch);
        assert_eq!(host.pump(&mut pump).unwrap(), (applied + 1).min(4));
        assert_eq!(pump.fetch().requests()[0].from_seq, applied);
        while pump.follower().applied_seq() < 4 {
            host.pump(&mut pump).unwrap();
        }
        assert_eq!(host.pump(&mut pump).unwrap(), 4);
        assert_eq!(pump.follower().view(), 1);
        assert_eq!(host.world.tick, world.tick);
    }
}

/// A fetch made of a closure.
struct Served<T>(T);

impl<T> Fetch for Served<T>
where
    T: FnMut(u64, WalRangeLimits) -> Result<FetchResponse, TransportError>,
{
    fn fetch(
        &mut self,
        from_seq: u64,
        limits: WalRangeLimits,
    ) -> Result<FetchResponse, TransportError> {
        (self.0)(from_seq, limits)
    }
}

#[test]
fn pull_pump_stops_on_terminal_errors() {
    let (log, _) = pull_source();
    let images = log.images();
    for case in ["history", "corrupt", "gap", "source", "rejoin"] {
        let (mut host, follower) = create(HISTORY, pull_limits());
        let fetch = RecordingFetch::new(Served(|seq, limits| {
            if case == "source" {
                return Err(TransportError::Source(WalError::MissingFenceContext { oldest: 1 }));
            }
            if case == "rejoin" {
                return Err(TransportError::RejoinRequired);
            }
            let mut response = LoopbackFetch::new(&log.wal, &images, HISTORY).fetch(seq, limits)?;
            match case {
                "history" => response.history[0] ^= 1,
                "corrupt" => *response.range.runs[0].frames.last_mut().unwrap() ^= 1,
                "gap" => {
                    response.range = log
                        .wal
                        .records_from(seq + 1, limits, &images)
                        .map_err(TransportError::Source)?;
                }
                _ => unreachable!(),
            }
            Ok(response)
        }));
        let mut pump = ReplicationPump::new(follower, fetch);
        let error = host.pump(&mut pump).unwrap_err();
        match case {
            "source" | "rejoin" => assert!(matches!(error, PumpError::Transport(_))),
            _ => {
                assert!(matches!(error, PumpError::Ingest(_)));
                assert!(matches!(pump.follower().read_at(0), Err(FollowerError::Poisoned)));
            }
        }
        assert_eq!(pump.follower().applied_seq(), 0);
        assert!(matches!(host.pump(&mut pump), Err(PumpError::Stopped)));
        assert_eq!(pump.fetch().requests().len(), 1);
        if pump.follower().is_poisoned() {
            let (follower, fetch) = pump.into_parts();
            let mut replacement = ReplicationPump::new(follower, fetch);
            assert!(matches!(host.pump(&mut replacement), Err(PumpError::Stopped)));
            assert_eq!(replacement.fetch().requests().len(), 1);
        }
    }
}

#[test]
fn pull_pump_never_reports_partial_apply() {
    let (mut log, _) = pull_source();
    log.append(vec![SerializedMutation::Despawn { entity: 999 }], 4);
    let images = log.images();
    let wide = WalRangeLimits { max_records: 10, ..pull_limits() };
    let (mut host, follower) = create(HISTORY, wide);
    let fetch = RecordingFetch::new(LoopbackFetch::new(&log.wal, &images, HISTORY));
    let mut pump = ReplicationPump::new(follower, fetch);
    assert!(matches!(host.pump(&mut pump), Err(PumpError::Ingest(_))));
    assert_eq!(pump.follower().applied_seq(), 4);
    assert!(matches!(pump.follower().read_at(3), Err(FollowerError::Poisoned)));
    assert!(matches!(host.pump(&mut pump), Err(PumpError::Stopped)));
    assert_eq!(pump.fetch().requests().len(), 1);
    assert_eq!(pump.fetch().requests()[0].from_seq, 0);
}

#[test]
fn pull_fetch_chaos_converges_pinned_seeds() {
    let (log, world) = pull_source();
    let images = log.images();
    for seed in [1u64, 7, 42] {
        let (mut host, follower) = create(HISTORY, pull_limits());
        let mut rng = seed;
        let mut calls = 0;
        let mut cached: Option<FetchResponse> = None;
        let mut faults = [0; 6];
        let mut loopback = LoopbackFetch::new(&log.wal, &images, HISTORY);
        let fetch = RecordingFetch::new(Served(|seq, limits| {
            rng = rng.wrapping_mul(6364136223846793005).wrapping_add(1);
            let action = if calls < 64 { ((rng >> 32) % 6) as usize } else { 5 };
            calls += 1;
            faults[action] += 1;
            match action {
                0 => Err(TransportError::Down),
                1 => Err(TransportError::Lost), // request lost
                2 => {
                    loopback.fetch(seq, limits)?;
                    Err(TransportError::Lost) // response lost after the source read
                }
                3 if cached.is_some() => Ok(cached.as_ref().unwrap().clone()),
                4 => {
                    loopback.fetch(seq, limits)?; // duplicate request
                    loopback.fetch(seq, limits)
                }
                _ => {
                    let response = loopback.fetch(seq, limits)?;
                    cached = Some(response.clone());
                    Ok(response)
                }
            }
        }));
        let mut pump = ReplicationPump::new(follower, fetch);
        // Fixed fault prefix followed by a repaired link.
        for _ in 0..70 {
            let before = pump.follower().applied_seq();
            match host.pump(&mut pump) {
                Ok(after) => assert!(after >= before && after <= 4),
                Err(PumpError::Transport(TransportError::Lost | TransportError::Down)) => {
                    assert_eq!(pump.follower().applied_seq(), before);
                    assert!(!pump.follower().is_poisoned());
                }
                other => panic!("seed {seed}: {other:?}"),
            }
            assert_eq!(pump.fetch().requests().last().unwrap().from_seq, before);
        }
        assert_eq!(pump.follower().applied_seq(), 4);
        assert_eq!(pump.fetch().requests().last().unwrap().from_seq, 4);
        assert_eq!(pump.follower().view(), 1);
        assert_eq!(fingerprint(&host.world), fingerprint(&world));
        assert_eq!(host.world.tick, world.tick);
        drop(pump);
        assert!(faults.iter().all(|count| *count > 0), "seed {seed}: {faults:?}");
    }
}

fn session_log(records: u64) -> Log {
    let config = WalConfig { max_segment_bytes: 128, ..WalConfig::default() };
    let mut log = Log::create(codecs(&["value"]), config);
    log.spawns(records);
    log
}

fn session_limits() -> WalRangeLimits {
    WalRangeLimits { max_records: 1, max_bytes: 65536, max_control_frames: 64 }
}

fn members(names: &[&str]) -> Vec<String> {
    names.iter().map(|n| n.to_string()).collect()
}

#[test]
fn session_requests_report_only_applied_progress() {
    let mut log = session_log(4);
    let mut source = Replicated::new(&mut log.wal, HISTORY, &members(&["a"]), 0).unwrap();
    let (mut host, follower) = create(HISTORY, session_limits());
    let mut pump = source.join("a", follower, log.wal.durable_seq()).unwrap();
    assert_eq!(host.pump_session(&mut pump, &mut source, &log).unwrap(), 1);
    assert_eq!(source.member_progress("a"), Some(0));
    let (follower, fetch) = pump.into_parts();
    let images = log.images();
    let limits = session_limits();
    // The source records the applied prefix even if the response is lost.
    source.fetch_session(&fetch, 1, limits, &log.wal, &images).unwrap();
    assert_eq!(follower.applied_seq(), 1);
    assert_eq!(source.member_progress("a"), Some(1));
    source.fetch_session(&fetch, 0, limits, &log.wal, &images).unwrap(); // delayed duplicate
    assert_eq!(source.member_progress("a"), Some(1));
    assert!(matches!(
        source.fetch_session(&fetch, 5, limits, &log.wal, &images),
        Err(TransportError::Source(WalError::RangeAhead { .. }))
    ));
    let none = WalRangeLimits { max_bytes: 0, ..limits };
    assert!(source.fetch_session(&fetch, 4, none, &log.wal, &images).is_err());
    assert_eq!(source.member_progress("a"), Some(1));
    let mut pump = ReplicationPump::new(follower, fetch);
    for next in 2..=4 {
        assert_eq!(host.pump_session(&mut pump, &mut source, &log).unwrap(), next);
        assert_eq!(source.member_progress("a"), Some(next - 1));
    }
    // An empty fetch reports the final progress.
    assert_eq!(host.pump_session(&mut pump, &mut source, &log).unwrap(), 4);
    assert_eq!(source.member_progress("a"), Some(4));
}

#[test]
fn session_join_validates_follower_and_revokes_old_client() {
    let mut log = session_log(4);
    let mut source = Replicated::new(&mut log.wal, HISTORY, &members(&["a"]), 0).unwrap();
    let published = log.wal.durable_seq();
    let (mut old_host, follower) = create(HISTORY, session_limits());
    let mut old = source.join("a", follower, published).unwrap();
    old_host.pump_session(&mut old, &mut source, &log).unwrap();
    old_host.pump_session(&mut old, &mut source, &log).unwrap();
    assert_eq!(source.member_progress("a"), Some(1));

    let (_, wrong_history) = create([9; 16], session_limits());
    assert!(matches!(
        source.join("a", wrong_history, published),
        Err(SessionError::HistoryMismatch)
    ));
    let (_, unknown) = create(HISTORY, session_limits());
    assert!(matches!(
        source.join("missing", unknown, published),
        Err(SessionError::UnknownMember(_))
    ));
    let (mut host, mut poisoned) = create(HISTORY, session_limits());
    let bad = WalFrameRange { from_seq: 1, next_seq: 1, seed_view: 0, runs: vec![] };
    assert!(host.ingest(&mut poisoned, HISTORY, &bad, Fault::Absent).is_err());
    assert!(matches!(
        source.join("a", poisoned, published),
        Err(SessionError::PoisonedFollower)
    ));

    let longer = session_log(5);
    let longer_images = longer.images();
    let (mut host, mut ahead) = create(HISTORY, session_limits());
    for seq in 0..5 {
        let response = LoopbackFetch::new(&longer.wal, &longer_images, HISTORY)
            .fetch(seq, session_limits())
            .unwrap();
        host.ingest(&mut ahead, HISTORY, &response.range, Fault::Absent).unwrap();
    }
    assert!(matches!(
        source.join("a", ahead, published),
        Err(SessionError::Ahead { applied: 5, published: 4 })
    ));
    // Failed joins did not replace the existing capability or its progress.
    assert_eq!(source.member_progress("a"), Some(1));
    assert_eq!(old_host.pump_session(&mut old, &mut source, &log).unwrap(), 3);

    let (mut host, follower) = create(HISTORY, session_limits());
    let mut new = source.join("a", follower, published).unwrap();
    assert_eq!(source.member_progress("a"), Some(0));
    assert!(matches!(
        old_host.pump_session(&mut old, &mut source, &log),
        Err(PumpError::Transport(TransportError::RejoinRequired))
    ));
    assert_eq!(source.member_progress("a"), Some(0));
    host.pump_session(&mut new, &mut source, &log).unwrap();
    source.remove_member("a").unwrap();
    source.add_member("a".to_owned()).unwrap();
    assert!(matches!(
        host.pump_session(&mut new, &mut source, &log),
        Err(PumpError::Transport(TransportError::RejoinRequired))
    ));
    assert_eq!(source.member_progress("a"), Some(0));
    assert!(matches!(
        source.add_member("a".to_owned()),
        Err(SessionError::DuplicateMember(_))
    ));
    assert!(matches!(
        source.remove_member("missing"),
        Err(SessionError::UnknownMember(_))
    ));
}

#[test]
fn repeated_member_leaves_the_log_unpinned() {
    let mut log = session_log(4);
    let error = Replicated::new(&mut log.wal, HISTORY, &members(&["a", "b", "a"]), 0);
    assert!(matches!(error, Err(SessionError::DuplicateMember(name)) if name == "a"));
    assert!(log.delete_before(4) > 0);
}

#[test]
fn retention_plan_respects_members_and_recovery_floor() {
    let mut log = session_log(4);
    let mut source = Replicated::new(&mut log.wal, HISTORY, &members(&["a", "b"]), 0).unwrap();
    let published = log.wal.durable_seq();
    let (mut host, follower) = create(HISTORY, session_limits());
    let mut a = source.join("a", follower, published).unwrap();
    for _ in 0..5 {
        host.pump_session(&mut a, &mut source, &log).unwrap();
    }
    assert_eq!(source.retention_plan(4, published).candidate_cutoff, 0); // b has not joined
    let (mut host, follower) = create(HISTORY, session_limits());
    let mut b = source.join("b", follower, published).unwrap();
    host.pump_session(&mut b, &mut source, &log).unwrap();
    host.pump_session(&mut b, &mut source, &log).unwrap();
    drop(b); // disconnect is not removal
    assert_eq!(source.retention_plan(4, published).follower_floor, Some(1));
    assert_eq!(source.retention_plan(4, published).candidate_cutoff, 1);
    assert_eq!(source.retention_plan(0, published).candidate_cutoff, 0); // no baseline
    source.remove_member("b").unwrap();
    assert_eq!(source.retention_plan(2, published).candidate_cutoff, 2);
    assert_eq!(source.retention_plan(4, published).candidate_cutoff, 4);
    source.remove_member("a").unwrap();
    assert_eq!(source.retention_plan(2, published).follower_floor, None);
    assert_eq!(source.retention_plan(2, published).candidate_cutoff, 2);
    assert_eq!(source.retention_plan(u64::MAX, published).candidate_cutoff, 4);
    // The proposal never authorizes erasing required fence context.
    assert_eq!(source.retention_plan(u64::MAX, published).deletion_cutoff, 0);
}

#[test]
fn replicated_checkpoint_cannot_delete_required_prefix() {
    let config = WalConfig { max_segment_bytes: 128, max_bytes_between_checkpoints: Some(1) };
    let mut log = Log::create(codecs(&["value"]), config);
    let mut source = Replicated::new(&mut log.wal, HISTORY, &members(&["a"]), 0).unwrap();
    let mut calls = 0;
    for _ in 0..4 {
        log.spawns(1);
        if log.wal.checkpoint_needed() {
            assert_eq!(log.delete_before(u64::MAX), 0);
            let seq = log.wal.next_seq();
            log.acknowledge(seq).unwrap();
            calls += 1;
        }
    }
    assert_eq!(calls, 4);
    // Rollovers and deletion attempts still permit a join from sequence zero.
    assert!(log.disk.files.len() > 1);
    let published = log.wal.durable_seq();
    let (mut host, follower) = create(HISTORY, session_limits());
    let mut pump = source.join("a", follower, published).unwrap();
    for _ in 0..5 {
        host.pump_session(&mut pump, &mut source, &log).unwrap();
    }
    assert_eq!(pump.follower().applied_seq(), 4);
    assert_eq!(source.retention_plan(0, published).candidate_cutoff, 0);
    assert_eq!(source.retention_plan(4, published).deletion_cutoff, 0);
}

#[test]
fn session_restart_resets_members_and_rejects_old_capability() {
    let mut log = Log::create(codecs(&["value"]), WalConfig::default());
    let names = members(&["a", "b"]);
    let mut source = Replicated::new(&mut log.wal, HISTORY, &names, 0).unwrap();
    log.spawns(1);
    let limits = session_limits();
    let (mut host, follower) = create(HISTORY, limits);
    let mut pump = source.join("a", follower, log.wal.durable_seq()).unwrap();
    host.pump_session(&mut pump, &mut source, &log).unwrap();
    host.pump_session(&mut pump, &mut source, &log).unwrap();
    assert_eq!(source.member_progress("a"), Some(1));
    let (_, old_session) = pump.into_parts();

    let mut log = log.reopen(WalConfig::default());
    let mut source = Replicated::new(&mut log.wal, HISTORY, &names, 1).unwrap();
    let published = log.wal.durable_seq();
    let images = log.images();
    assert_eq!(source.member_progress("a"), Some(0));
    assert_eq!(source.member_progress("b"), Some(0));
    assert_eq!(source.retention_plan(1, published).candidate_cutoff, 0);
    assert!(matches!(
        source.fetch_session(&old_session, 1, limits, &log.wal, &images),
        Err(TransportError::RejoinRequired)
    ));

    let (mut host, follower) = reopen(host.journal, HISTORY, limits).unwrap();
    let mut pump = source.join("a", follower, published).unwrap();
    assert_eq!(source.member_progress("a"), Some(1));
    assert_eq!(host.pump_session(&mut pump, &mut source, &log).unwrap(), 1);
    assert!(matches!(
        source.fetch_session(&old_session, 1, limits, &log.wal, &images),
        Err(TransportError::RejoinRequired)
    ));
    assert_eq!(source.retention_plan(1, published).candidate_cutoff, 0); // b is configured
    source.remove_member("b").unwrap();
    assert_eq!(source.retention_plan(1, published).candidate_cutoff, 1);
    assert_eq!(source.retention_plan(1, published).deletion_cutoff, 0);

    // A current request can become stale while its range is being copied:
    // replace its session between the check and the reply.
    source.check_session(pump.fetch()).unwrap();
    let read = log.wal.records_from(1, limits, &images);
    let (_, replacement) = create(HISTORY, limits);
    drop(source.join("a", replacement, published).unwrap());
    let result = source.fetch_session_with(pump.fetch(), 1, read);
    assert!(matches!(result, Err(TransportError::RejoinRequired)));
    assert_eq!(source.member_progress("a"), Some(0));
}
