//! Index files, checkpoints, fingerprints, change sets and wording.
use minkowski_persist::apply::{
    build_apply_remap, resolve_apply_component, validate_record_components, validate_record_tick,
    ApplyComponent, CodecInfo, Codecs, WorldShape,
};
use minkowski_persist::change::{
    apply_record, changeset_to_record, serialize_mutation, ComponentValue, MutationShape,
    WorldChange,
};
use minkowski_persist::checkpoint::{
    AutoCheckpoint, CheckpointAction, CheckpointError, CheckpointEvent, RunCount,
};
use minkowski_persist::crc::CrcProof;
use minkowski_persist::error::{CodecError, FormatIssue, IoError, WalError};
use minkowski_persist::fingerprint::{
    world_fingerprint, ArchetypeState, ComponentState, FingerprintError, RowState, ValueState,
};
use minkowski_persist::format::FormatError;
use minkowski_persist::index::{
    build_payload, index_file, load_btree_index, load_hash_index, read_index_file,
    write_index_file, IndexIssue, IndexParts, IndexPersistError, IndexPayload, SaveIo,
    INDEX_HEADER_SIZE,
};
use minkowski_persist::ingest::IngestError;
use minkowski_persist::record::{SerializedMutation, WalRecord, WalSchema};
use minkowski_persist::recover::RecoverError;
use minkowski_persist::replication::{FollowerError, ReplicationError};
use minkowski_persist::transport::{PumpError, TransportError};
use minkowski_persist::views::{observe_view, Views};
use minkowski_persist::wal::{AppendIo, CleanupIo, RollIo, Wal, WalConfig};
use std::collections::hash_map::DefaultHasher;
use std::hash::{Hash, Hasher};

#[test]
fn write_read_round_trip() {
    let payload = b"hello world";
    let io = SaveIo { written: Ok(()), synced: Ok(()), renamed: Ok(()) };
    assert_eq!(write_index_file(io), (Ok(()), false));
    let loaded = read_index_file(Ok(index_file(payload))).unwrap();
    assert_eq!(loaded, payload);
}

#[test]
fn read_missing_file() {
    let result = read_index_file(Err(IoError::NotFound));
    assert!(matches!(result, Err(IndexPersistError::Io(_))));
}

#[test]
fn read_too_small() {
    let result = read_index_file(Ok(vec![0; 10]));
    assert!(matches!(result, Err(IndexPersistError::Format(_))));
}

#[test]
fn read_bad_magic() {
    let mut data = vec![0u8; INDEX_HEADER_SIZE + 4];
    data[..8].copy_from_slice(b"NOTMAGIC");
    let error = read_index_file(Ok(data)).err().unwrap();
    assert!(error.message().contains("magic"));
}

#[test]
fn read_crc_mismatch() {
    let mut data = index_file(b"test data");
    data[INDEX_HEADER_SIZE] ^= 0xFF;
    let error = read_index_file(Ok(data)).err().unwrap();
    assert!(error.message().contains("checksum"));
}

#[test]
fn index_header_layout() {
    let file = index_file(b"123456789");
    assert_eq!(file[..8], *b"MK2INDXK");
    assert_eq!(file[8..12], 0xCBF4_3926u32.to_le_bytes());
    assert_eq!(file[12..16], 1u32.to_le_bytes());
    assert_eq!(file[16..24], 9u64.to_le_bytes());
    assert_eq!(file[24..], *b"123456789");
}

#[test]
fn index_versions_and_lengths_are_checked() {
    let mut future = index_file(b"data");
    future[12] = 2;
    assert_eq!(
        read_index_file(Ok(future)),
        Err(IndexPersistError::Format(IndexIssue::Version { version: 2 }))
    );
    let mut torn = index_file(b"data");
    torn.pop();
    assert_eq!(
        read_index_file(Ok(torn)),
        Err(IndexPersistError::Format(IndexIssue::Truncated { expected: 4, got: 3 }))
    );
    let mut padded = index_file(b"data");
    padded.push(9);
    assert_eq!(read_index_file(Ok(padded)).unwrap(), b"data");
}

#[test]
fn atomic_rename_leaves_no_tmp() {
    // Written, synced and renamed: the temporary name is gone already.
    let io = SaveIo { written: Ok(()), synced: Ok(()), renamed: Ok(()) };
    let (saved, remove_tmp) = write_index_file(io);
    assert!(saved.is_ok());
    assert!(!remove_tmp);
    assert_eq!(read_index_file(Ok(index_file(b"data"))).unwrap(), b"data");
}

#[test]
fn altered_index_files_are_refused() {
    let file = index_file(b"some payload");
    for i in (0..16).chain(INDEX_HEADER_SIZE..file.len()) {
        for bit in 0..8 {
            let mut altered = file.clone();
            altered[i] ^= 1 << bit;
            assert!(matches!(
                read_index_file(Ok(altered)),
                Err(IndexPersistError::Format(_))
            ));
        }
    }
    for kept in 0..file.len() {
        assert!(matches!(
            read_index_file(Ok(file[..kept].to_vec())),
            Err(IndexPersistError::Format(_))
        ));
    }
}

#[test]
fn failed_index_writes_leave_no_tmp() {
    let failed = || Err(IoError::Host("full".to_string()));
    let broken = Err(IndexPersistError::Io(IoError::Host("full".to_string())));
    let io = SaveIo { written: failed(), synced: Ok(()), renamed: Ok(()) };
    assert_eq!(write_index_file(io), (broken.clone(), true));
    let io = SaveIo { written: Ok(()), synced: failed(), renamed: Ok(()) };
    assert_eq!(write_index_file(io), (broken.clone(), true));
    let io = SaveIo { written: Ok(()), synced: Ok(()), renamed: failed() };
    assert_eq!(write_index_file(io), (broken, true));
}

/// The payload of an index over scores 10 (entities 1 and 3) and 20 (entity 2).
fn scores() -> IndexPayload {
    let key = |n: u32| Ok(n.to_le_bytes().to_vec());
    build_payload(IndexParts {
        key_type_name: "Score".to_string(),
        keys: vec![key(10), key(20)],
        entities: vec![vec![1, 3], vec![2]],
        reverse_entities: vec![1, 2, 3],
        reverse_keys: vec![key(10), key(20), key(10)],
        last_sync_tick: 6,
    })
    .unwrap()
}

fn score(bytes: &[u8]) -> Result<u32, String> {
    match bytes.try_into() {
        Ok(array) => Ok(u32::from_le_bytes(array)),
        Err(_) => Err("not a score".to_string()),
    }
}

#[test]
fn btree_save_load_round_trip() {
    let payload = scores();
    let keys = payload.entries.iter().map(|e| score(&e.0)).collect();
    let reverse = payload.reverse.iter().map(|e| score(&e.1)).collect();
    let loaded = load_btree_index(Ok(payload), &"Score".to_string(), keys, reverse, 4).unwrap();
    assert_eq!(loaded.entries, vec![(10, vec![1, 3]), (20, vec![2])]);
    assert_eq!(loaded.reverse, vec![(1, 10), (2, 20), (3, 10)]);
    assert_eq!(loaded.sync_tick, 4);
}

#[test]
fn btree_empty_round_trip() {
    let payload = build_payload(IndexParts {
        key_type_name: "Score".to_string(),
        keys: vec![],
        entities: vec![],
        reverse_entities: vec![],
        reverse_keys: vec![],
        last_sync_tick: 0,
    })
    .unwrap();
    let loaded = load_btree_index::<u32>(Ok(payload), &"Score".to_string(), vec![], vec![], 0);
    assert!(loaded.unwrap().entries.is_empty());
}

#[test]
fn hash_save_load_round_trip() {
    let payload = scores();
    let keys = payload.entries.iter().map(|e| score(&e.0)).collect();
    let reverse = payload.reverse.iter().map(|e| score(&e.1)).collect();
    let loaded = load_hash_index(Ok(payload), &"Score".to_string(), keys, reverse, 9).unwrap();
    assert_eq!(loaded.entries[0], (10, vec![1, 3]));
    assert_eq!(loaded.entries[1], (20, vec![2]));
}

#[test]
fn index_load_failures_are_told_apart() {
    let payload = scores();
    let wrong = load_btree_index::<u32>(
        Ok(payload.clone()),
        &"Level".to_string(),
        vec![],
        vec![],
        0,
    );
    assert_eq!(
        wrong.err().unwrap(),
        IndexPersistError::Format(IndexIssue::KeyType {
            found: "Score".to_string(),
            expected: "Level".to_string()
        })
    );
    let broken: Vec<Result<u32, String>> = vec![Ok(10), Err("bad key".to_string())];
    let undecoded = load_hash_index(Ok(payload), &"Score".to_string(), broken, vec![], 0);
    assert_eq!(
        undecoded.err().unwrap(),
        IndexPersistError::Format(IndexIssue::KeyDecode("bad key".to_string()))
    );
    let garbage = load_btree_index::<u32>(
        Err("bad payload".to_string()),
        &"Score".to_string(),
        vec![],
        vec![],
        0,
    );
    assert_eq!(
        garbage.err().unwrap(),
        IndexPersistError::Format(IndexIssue::PayloadDecode("bad payload".to_string()))
    );
    let unencoded = build_payload(IndexParts {
        key_type_name: "Score".to_string(),
        keys: vec![Err("no room".to_string())],
        entities: vec![vec![1]],
        reverse_entities: vec![],
        reverse_keys: vec![],
        last_sync_tick: 0,
    });
    assert_eq!(
        unencoded,
        Err(IndexPersistError::Format(IndexIssue::KeyEncode("no room".to_string())))
    );
}

fn wal_with(records: usize) -> Wal {
    let config = WalConfig {
        max_segment_bytes: 64 * 1024 * 1024,
        max_bytes_between_checkpoints: Some(128),
    };
    let schema = WalSchema { components: vec![] };
    let (mut wal, _) = Wal::create(schema, config, b"schema").unwrap();
    for _ in 0..records {
        wal.append(Ok(vec![0; 32]), io()).unwrap();
    }
    wal
}

fn io() -> AppendIo {
    let fine = || CleanupIo { removed: Ok(()), synced: Ok(()) };
    AppendIo {
        cleanup: fine(),
        write: Ok(()),
        sync: Ok(()),
        roll: RollIo { cleanup: fine(), opened: Ok(()), prepared: Ok(20), rollback: fine() },
    }
}

fn quiet_store() -> RunCount {
    RunCount { runs: 1, trigger: 4 }
}

#[test]
fn auto_checkpoint_creates_lsm_run() {
    let mut wal = wal_with(10);
    assert!(wal.checkpoint_needed());
    let mut handler = AutoCheckpoint::new();
    let mut flushes = Vec::new();
    let mut action = handler.on_checkpoint_needed(&wal);
    loop {
        let event = match action {
            CheckpointAction::Flush { lo, hi } => {
                flushes.push((lo, hi));
                CheckpointEvent::Flushed(Ok(quiet_store()))
            }
            CheckpointAction::Acknowledge { flush_seq } => {
                let acknowledged = wal.acknowledge_flush(flush_seq, Ok(vec![1]), io());
                CheckpointEvent::Acknowledged(acknowledged)
            }
            CheckpointAction::Done => break,
            other => panic!("unexpected {other:?}"),
        };
        action = handler.step(event).unwrap();
    }
    assert!(!wal.checkpoint_needed());
    assert_eq!(wal.last_checkpoint_seq(), Some(10));
    assert_eq!(flushes, vec![(0, 10)]);
    // The next flush starts where this one ended.
    wal.append(Ok(vec![0; 32]), io()).unwrap();
    assert_eq!(
        handler.on_checkpoint_needed(&wal),
        CheckpointAction::Flush { lo: 10, hi: 11 }
    );
}

#[test]
fn auto_checkpoint_saves_registered_index() {
    let wal = wal_with(10);
    let mut handler = AutoCheckpoint::new();
    handler.register_index("score.idx".to_string());
    handler.register_index("level.idx".to_string());
    assert!(wal.checkpoint_needed());
    handler.on_checkpoint_needed(&wal);
    // A failed save does not fail the checkpoint.
    let flushed = CheckpointEvent::Flushed(Ok(quiet_store()));
    assert_eq!(handler.step(flushed), Ok(CheckpointAction::SaveIndex { index: 0 }));
    assert_eq!(handler.index_path(0).unwrap(), "score.idx");
    assert_eq!(
        handler.step(CheckpointEvent::IndexSaved(false)),
        Ok(CheckpointAction::SaveIndex { index: 1 })
    );
    assert_eq!(handler.index_path(1).unwrap(), "level.idx");
    assert_eq!(
        handler.step(CheckpointEvent::IndexSaved(true)),
        Ok(CheckpointAction::Acknowledge { flush_seq: 10 })
    );
    assert!(handler.index_path(2).is_none());
}

#[test]
fn checkpoint_compacts_until_below_the_trigger() {
    let wal = wal_with(3);
    let mut handler = AutoCheckpoint::new();
    handler.on_checkpoint_needed(&wal);
    let full = RunCount { runs: 4, trigger: 4 };
    let flushed = CheckpointEvent::Flushed(Ok(full));
    assert_eq!(handler.step(flushed), Ok(CheckpointAction::Compact));
    assert_eq!(
        handler.step(CheckpointEvent::Compacted(Ok(Some(full)))),
        Ok(CheckpointAction::Compact)
    );
    assert_eq!(
        handler.step(CheckpointEvent::Compacted(Ok(None))),
        Ok(CheckpointAction::Acknowledge { flush_seq: 3 })
    );
    let refused = WalError::Io(IoError::UnexpectedEof);
    assert_eq!(
        handler.step(CheckpointEvent::Acknowledged(Err(refused.clone()))),
        Err(CheckpointError::Wal(refused))
    );
}

#[test]
fn failed_flush_acknowledges_nothing() {
    let wal = wal_with(3);
    let mut handler = AutoCheckpoint::new();
    handler.on_checkpoint_needed(&wal);
    assert_eq!(
        handler.step(CheckpointEvent::Flushed(Err("disk".to_string()))),
        Err(CheckpointError::Flush("disk".to_string()))
    );
    handler.on_checkpoint_needed(&wal);
    handler.step(CheckpointEvent::Flushed(Ok(RunCount { runs: 9, trigger: 4 }))).unwrap();
    assert_eq!(
        handler.step(CheckpointEvent::Compacted(Err("merge".to_string()))),
        Err(CheckpointError::Compact("merge".to_string()))
    );
    assert!(wal.checkpoint_needed());
}

fn component(id: usize, name: &str) -> ComponentState {
    ComponentState { id, registered: true, name: Some(name.to_string()) }
}

fn row(entity: u64, values: &[&[u8]]) -> RowState {
    RowState {
        entity,
        values: values.iter().map(|v| ValueState::Bytes(v.to_vec())).collect(),
    }
}

#[test]
fn fingerprint_ignores_ids_and_order() {
    let a = vec![
        ArchetypeState {
            components: vec![component(0, "pos"), component(1, "name")],
            rows: vec![row(1, &[b"p1", b"n1"]), row(2, &[b"p2", b"n2"])],
        },
        ArchetypeState { components: vec![component(0, "pos")], rows: vec![row(3, &[b"p3"])] },
    ];
    let b = vec![
        ArchetypeState { components: vec![component(5, "pos")], rows: vec![row(3, &[b"p3"])] },
        ArchetypeState {
            components: vec![component(4, "name"), component(5, "pos")],
            rows: vec![row(2, &[b"n2", b"p2"]), row(1, &[b"n1", b"p1"])],
        },
    ];
    assert_eq!(world_fingerprint(&a).unwrap(), world_fingerprint(&b).unwrap());
    let mut c = a.clone();
    c[1].rows[0] = row(3, &[b"other"]);
    assert_ne!(world_fingerprint(&a).unwrap(), world_fingerprint(&c).unwrap());
    c[1].rows[0] = row(4, &[b"p3"]);
    assert_ne!(world_fingerprint(&a).unwrap(), world_fingerprint(&c).unwrap());
}

#[test]
fn empty_archetypes_are_part_of_the_state() {
    let empty = ArchetypeState { components: vec![component(0, "pos")], rows: vec![] };
    let full = ArchetypeState {
        components: vec![component(1, "name")],
        rows: vec![row(1, &[b"n1"])],
    };
    assert_ne!(
        world_fingerprint(&vec![empty, full.clone()]).unwrap(),
        world_fingerprint(&vec![full]).unwrap()
    );
}

#[test]
fn fingerprint_is_the_hash_of_the_sorted_state() {
    let world = vec![ArchetypeState {
        components: vec![component(0, "pos")],
        rows: vec![row(7, &[b"value"])],
    }];
    let mut value = DefaultHasher::new();
    b"value".to_vec().hash(&mut value);
    let mut expected = DefaultHasher::new();
    "pos".hash(&mut expected);
    7u64.hash(&mut expected);
    "pos".hash(&mut expected);
    value.finish().hash(&mut expected);
    assert_eq!(world_fingerprint(&world).unwrap(), expected.finish());
}

#[test]
fn fingerprint_failures_are_told_apart() {
    let states = |c: ComponentState, v: ValueState| {
        vec![ArchetypeState { components: vec![c], rows: vec![RowState { entity: 1, values: vec![v] }] }]
    };
    let bytes = || ValueState::Bytes(vec![1]);
    let unregistered = ComponentState { id: 3, registered: false, name: None };
    assert_eq!(
        world_fingerprint(&states(unregistered, bytes())),
        Err(FingerprintError::Unregistered { id: 3 })
    );
    let nameless = ComponentState { id: 4, registered: true, name: None };
    assert_eq!(
        world_fingerprint(&states(nameless, bytes())),
        Err(FingerprintError::NoCodec { id: 4 })
    );
    assert_eq!(
        world_fingerprint(&states(component(0, "pos"), ValueState::NoColumn)),
        Err(FingerprintError::NoColumn { row: 0 })
    );
    assert_eq!(
        world_fingerprint(&states(component(0, "pos"), ValueState::CodecFailed("bad".to_string()))),
        Err(FingerprintError::CodecFailed("bad".to_string()))
    );
    assert_eq!(
        world_fingerprint(&states(component(0, "pos"), ValueState::NoCodec)),
        Err(FingerprintError::NoValueCodec)
    );
}

fn codecs(names: &[&str]) -> Codecs {
    Codecs {
        entries: names
            .iter()
            .enumerate()
            .map(|(id, name)| CodecInfo { id, name: name.to_string(), size: 8, align: 4 })
            .collect(),
    }
}

fn shape(names: &[&str], tick: u64) -> WorldShape {
    WorldShape { columns: names.iter().map(|n| Some(n.to_string())).collect(), tick }
}

#[test]
fn schema_lists_codecs_in_order() {
    let schema = codecs(&["pos", "name"]).build_schema();
    assert_eq!(schema.components.len(), 2);
    assert_eq!((schema.components[1].id, schema.components[1].name.as_str()), (1, "name"));
    assert_eq!((schema.components[0].size, schema.components[0].align), (8, 4));
    assert_eq!(codecs(&["pos"]).stable_name(0).unwrap(), "pos");
    assert!(codecs(&["pos"]).stable_name(1).is_none());
}

#[test]
fn changeset_becomes_a_record() {
    let changes = vec![
        MutationShape::Spawn { entity: 1, components: vec![0, 2] },
        MutationShape::Despawn { entity: 2 },
        MutationShape::Insert { entity: 3, component_id: 1 },
        MutationShape::SparseRemove { entity: 4, component_id: 5 },
    ];
    let encoded = vec![Ok(vec![10]), Ok(vec![20]), Ok(vec![30])];
    let record = changeset_to_record(9, &changes, &encoded, 77).unwrap();
    assert_eq!(
        record,
        WalRecord {
            seq: 9,
            tick_after: 77,
            mutations: vec![
                SerializedMutation::Spawn {
                    entity: 1,
                    components: vec![(0, vec![10]), (2, vec![20])]
                },
                SerializedMutation::Despawn { entity: 2 },
                SerializedMutation::Insert { entity: 3, component_id: 1, data: vec![30] },
                SerializedMutation::SparseRemove { entity: 4, component_id: 5 },
            ],
        }
    );
    let refused = CodecError::Other("too big".to_string());
    let encoded = vec![Ok(vec![10]), Err(refused.clone())];
    assert_eq!(
        changeset_to_record(9, &changes, &encoded, 77),
        Err(WalError::Codec(refused))
    );
    let sparse = MutationShape::SparseInsert { entity: 6, component_id: 7 };
    assert_eq!(
        serialize_mutation(&sparse, &vec![Ok(vec![0]), Ok(vec![1])], 1),
        Ok(SerializedMutation::SparseInsert { entity: 6, component_id: 7, data: vec![1] })
    );
}

#[test]
fn records_resolve_by_name() {
    let codecs = codecs(&["pos", "name"]);
    let world = shape(&["name", "pos"], 0);
    let binding = Ok(vec![(77, 0), (78, 1)]);
    let remap = build_apply_remap(Some((2, &binding)), &world, &codecs).unwrap();
    assert_eq!(remap[&77], ApplyComponent { codec_id: 0, world_id: Some(1) });
    assert_eq!(resolve_apply_component(&remap, &codecs, 78), Ok((1, 0)));
    assert_eq!(
        resolve_apply_component(&remap, &codecs, 5),
        Err(WalError::Codec(CodecError::UnregisteredComponent(5)))
    );
    let narrow = shape(&["name"], 0);
    let remap = build_apply_remap(Some((2, &binding)), &narrow, &codecs).unwrap();
    assert_eq!(
        resolve_apply_component(&remap, &codecs, 77),
        Err(WalError::Format(FormatIssue::UnboundComponent { name: Some("pos".to_string()) }))
    );
    let record = WalRecord {
        seq: 0,
        mutations: vec![SerializedMutation::Remove { entity: 1, component_id: 77 }],
        tick_after: 0,
    };
    assert!(validate_record_components(&record, &remap, &codecs).is_err());
    let identity = build_apply_remap(None, &world, &codecs).unwrap();
    assert_eq!(identity[&0], ApplyComponent { codec_id: 0, world_id: Some(1) });
}

#[test]
fn record_ticks_are_bounded() {
    let record = |tick_after| WalRecord { seq: 2, mutations: vec![], tick_after };
    assert_eq!(validate_record_tick(&record(7), 7), Ok(8));
    assert_eq!(
        validate_record_tick(&record(6), 7),
        Err(WalError::TickRegression { seq: 2, record_tick: 6, world_tick: 7 })
    );
    assert_eq!(
        validate_record_tick(&record(u64::MAX), 7),
        Err(WalError::Format(FormatIssue::TickOverflow { seq: 2 }))
    );
}

#[test]
fn record_application_is_planned_in_order() {
    let codecs = codecs(&["pos"]);
    let world = shape(&["pos"], 4);
    let record = WalRecord {
        seq: 0,
        mutations: vec![
            SerializedMutation::Spawn { entity: 1, components: vec![(0, vec![1])] },
            SerializedMutation::Insert { entity: 2, component_id: 0, data: vec![2] },
            SerializedMutation::Remove { entity: 1, component_id: 0 },
        ],
        tick_after: 4,
    };
    let value = |b: u8| Ok(ComponentValue { bytes: vec![b], size: 8, align: 4 });
    let plan = apply_record(&record, &world, &codecs, None, &vec![value(1), value(2)]).unwrap();
    assert_eq!((plan.tick, plan.next_tick), (4, 5));
    assert_eq!(
        plan.changes,
        vec![
            WorldChange::Spawn { entity: 1, first: 0, count: 1 },
            WorldChange::Insert { entity: 2, value: 1 },
            WorldChange::Remove { entity: 1, world_id: 0 },
        ]
    );
    let refused = CodecError::Other("bad bytes".to_string());
    let decoded = vec![value(1), Err(refused.clone())];
    assert_eq!(
        apply_record(&record, &world, &codecs, None, &decoded).err().unwrap(),
        WalError::Codec(refused)
    );
}

#[test]
fn views_only_grow() {
    let mut fence = 4;
    assert!(observe_view(&mut fence, 3));
    assert_eq!(fence, 4);
    assert!(!observe_view(&mut fence, 4));
    assert!(!observe_view(&mut fence, 9));
    assert_eq!(fence, 9);
    let mut views = Views::new();
    assert_eq!(views.bump(), 1);
    assert_eq!(views.current(), 1);
}

#[test]
fn checksums_are_checked() {
    assert!(CrcProof::verify(b"123456789", 0xCBF4_3926).is_some());
    assert!(CrcProof::verify(b"123456789", 0).is_none());
    assert!(CrcProof::verify(b"", 0).is_some());
    let long: Vec<u8> = (0..=255).collect();
    assert!(CrcProof::verify(&long, 0x2905_8C73).is_some());
}

#[test]
fn failures_are_worded() {
    let cases: Vec<(String, &str)> = vec![
        (
            WalError::TickRegression { seq: 1, record_tick: 5, world_tick: 6 }.message(),
            "tick regression at seq 1: record tick 5 is below world tick 6",
        ),
        (
            WalError::ChecksumMismatch { offset: 12, expected: 0xAB, actual: 0xDEADBEEF }.message(),
            "WAL checksum mismatch at byte offset 12: expected 0x000000ab, got 0xdeadbeef",
        ),
        (
            WalError::CursorBehind { requested: 0, oldest: 5 }.message(),
            "cursor behind: requested seq 0 but oldest available is 5",
        ),
        (
            WalError::Codec(CodecError::UnregisteredComponent(99)).message(),
            "WAL codec error: unregistered component 99",
        ),
        (
            WalError::Format(FormatIssue::FrameTooLarge { offset: 4, len: 300000000 }).message(),
            "WAL format error: WAL frame at offset 4 claims 300000000 bytes, exceeding maximum \
             268435456",
        ),
        (
            FollowerError::Gap { expected: 0, got: 3 }.message(),
            "gap in log: expected seq 0, got 3",
        ),
        (
            IngestError::Follower(FollowerError::Stale { requested: 2, applied_seq: 1 }).message(),
            "read at seq 2 is ahead of applied_seq 1",
        ),
        (
            PumpError::Transport(TransportError::Lost).message(),
            "request or response lost; retry the same applied position",
        ),
        (
            RecoverError::Wal(WalError::InvalidRangeLimits).message(),
            "WAL replay error: range limits must all be positive",
        ),
        (
            ReplicationError::Format(WalError::RangeLimitTooSmall).message(),
            "replication format error: range limits cannot fit a mutation and its schema context",
        ),
        (
            IndexPersistError::Format(IndexIssue::Truncated { expected: 9, got: 4 }).message(),
            "index format error: index truncated: expected 9 payload bytes, got 4",
        ),
        (FormatError("short".to_string()).message(), "rkyv format error: short"),
    ];
    for (text, expected) in cases {
        assert_eq!(text, expected);
    }
}
