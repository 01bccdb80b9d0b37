//! Segment names, frames and records.
use minkowski_persist::error::{FormatIssue, WalError};
use minkowski_persist::frame::{
    scan_stream, write_frame, DecodedFrame, RawFrame, StreamTail, FRAME_HEADER_SIZE,
};
use minkowski_persist::record::{
    ComponentSchema, SerializedMutation, WalEntry, WalRecord, WalSchema,
};
use minkowski_persist::segment::{
    list_segments, magic_bytes, parse_segment_start_seq, read_segment, segment_filename,
    SegmentImage, SegmentMagic,
};
use minkowski_persist::wal::WalConfig;

#[test]
fn segment_filename_format() {
    assert_eq!(segment_filename(0), "wal-seq000000.seg");
    assert_eq!(segment_filename(47), "wal-seq000047.seg");
    assert_eq!(segment_filename(123456), "wal-seq123456.seg");
}

#[test]
fn parse_segment_start_seq_valid() {
    assert_eq!(parse_segment_start_seq("wal-seq000000.seg"), Some(0));
    assert_eq!(parse_segment_start_seq("wal-seq000047.seg"), Some(47));
    assert_eq!(parse_segment_start_seq("wal-seq123456.seg"), Some(123456));
}

#[test]
fn parse_segment_start_seq_invalid() {
    assert_eq!(parse_segment_start_seq("not-a-segment.txt"), None);
    assert_eq!(parse_segment_start_seq("wal-seq.seg"), None);
    assert_eq!(parse_segment_start_seq("wal-seqABCDEF.seg"), None);
}

#[test]
fn segment_numbers_parse_as_unsigned_integers() {
    assert_eq!(parse_segment_start_seq("wal-seq+7.seg"), Some(7));
    assert_eq!(parse_segment_start_seq("wal-seq+.seg"), None);
    assert_eq!(parse_segment_start_seq("wal-seq-7.seg"), None);
    assert_eq!(
        parse_segment_start_seq("wal-seq18446744073709551615.seg"),
        Some(u64::MAX)
    );
    assert_eq!(parse_segment_start_seq("wal-seq18446744073709551616.seg"), None);
    assert_eq!(parse_segment_start_seq("wal-seq000001.seg.tmp"), None);
}

#[test]
fn long_segment_numbers_keep_all_digits() {
    assert_eq!(segment_filename(1234567), "wal-seq1234567.seg");
    let name = segment_filename(u64::MAX);
    assert_eq!(name, "wal-seq18446744073709551615.seg");
    assert_eq!(parse_segment_start_seq(&name), Some(u64::MAX));
}

#[test]
fn list_segments_sorted() {
    let names: Vec<String> = vec![
        "wal-seq000100.seg".to_string(),
        "wal-seq000000.seg".to_string(),
        "wal-seq000050.seg".to_string(),
        "not-a-segment.txt".to_string(),
    ];
    let segments = list_segments(&names);
    assert_eq!(segments.len(), 3);
    assert_eq!(segments[0].0, 0);
    assert_eq!(segments[1].0, 50);
    assert_eq!(segments[2].0, 100);
    assert_eq!(segments[0].1, 1);
    assert_eq!(segments[1].1, 2);
    assert_eq!(segments[2].1, 0);
}

#[test]
fn list_segments_empty_dir() {
    let segments = list_segments(&Vec::new());
    assert!(segments.is_empty());
}

#[test]
fn wal_config_default() {
    let config = WalConfig::default();
    assert_eq!(config.max_segment_bytes, 64 * 1024 * 1024);
}

#[test]
fn wal_config_checkpoint_default_disabled() {
    let config = WalConfig::default();
    assert!(config.max_bytes_between_checkpoints.is_none());
}

#[test]
fn frame_header_size_is_sixteen() {
    // [len: u32][crc32: u32][view: u64].
    assert_eq!(FRAME_HEADER_SIZE, 16);
}

#[test]
fn component_schema_clone() {
    let schema = ComponentSchema {
        id: 0,
        name: "pos".into(),
        size: 8,
        align: 4,
    };
    let cloned = schema.clone();
    assert_eq!(cloned.id, 0);
    assert_eq!(cloned.name, "pos");
    assert_eq!(schema.duplicate(), schema);
}

#[test]
fn wal_entry_checkpoint_variant() {
    let checkpoint = WalEntry::Checkpoint { flush_seq: 42 };
    assert!(matches!(checkpoint, WalEntry::Checkpoint { flush_seq: 42 }));
}

#[test]
fn wal_entry_variants() {
    let schema = WalEntry::Schema(WalSchema { components: vec![] });
    assert!(matches!(schema, WalEntry::Schema(_)));

    let mutations = WalEntry::Mutations(WalRecord {
        seq: 0,
        mutations: vec![],
        tick_after: 0,
    });
    assert!(matches!(mutations, WalEntry::Mutations(_)));
}

#[test]
fn frame_round_trip_preserves_payload_and_view() {
    let mut bytes = magic_bytes();
    let start = bytes.len();
    let payload = b"a despawn of entity 99 at sequence 42".to_vec();
    let frame = write_frame(&payload, 3).unwrap();
    bytes.extend_from_slice(&frame);

    let restored = RawFrame::read_from(&bytes, start).unwrap().unwrap();
    restored.verify().unwrap();
    assert_eq!(restored.stamp(), 3);
    assert_eq!(restored.next_offset(), (start + frame.len()) as u64);
    assert_eq!(restored.payload_bytes(), payload.as_slice());
    assert!(RawFrame::read_from(&bytes, restored.next_offset() as usize)
        .unwrap()
        .is_none());
}

#[test]
fn frame_bytes_are_length_checksum_view_payload() {
    // The CRC-32 of "123456789" is the published check value.
    let frame = write_frame(b"123456789", 0x0102_0304_0506_0708).unwrap();
    assert_eq!(frame[..4], [9, 0, 0, 0]);
    assert_eq!(frame[4..8], 0xCBF4_3926u32.to_le_bytes());
    assert_eq!(frame[8..16], [8, 7, 6, 5, 4, 3, 2, 1]);
    assert_eq!(frame[16..], *b"123456789");
}

#[test]
fn checksum_mismatch_names_both_sums() {
    let mut frame = write_frame(b"123456789", 1).unwrap();
    frame[4] ^= 0xFF;
    let raw = RawFrame::read_from(&frame, 0).unwrap().unwrap();
    assert_eq!(
        raw.verify().unwrap_err(),
        WalError::ChecksumMismatch {
            offset: 0,
            expected: 0xCBF4_39D9,
            actual: 0xCBF4_3926,
        }
    );
}

#[test]
fn oversized_frame_is_refused() {
    let mut bytes = vec![0u8; 16];
    bytes[..4].copy_from_slice(&(256 * 1024 * 1024 + 1u32).to_le_bytes());
    assert_eq!(
        RawFrame::read_from(&bytes, 0).err().unwrap(),
        WalError::Format(FormatIssue::FrameTooLarge {
            offset: 0,
            len: 256 * 1024 * 1024 + 1
        })
    );
    let scan = scan_stream(&bytes, 0);
    assert_eq!(scan.tail, StreamTail::TooLarge { len: 256 * 1024 * 1024 + 1 });
}

#[test]
fn torn_stream_keeps_whole_frames() {
    let mut bytes = write_frame(b"first", 1).unwrap();
    let whole = bytes.len();
    let second = write_frame(b"second", 7).unwrap();
    bytes.extend_from_slice(&second[..second.len() - 1]);
    let scan = scan_stream(&bytes, 0);
    assert_eq!(scan.frames.len(), 1);
    assert_eq!(scan.end, whole as u64);
    assert_eq!(scan.tail, StreamTail::ShortPayload { view: 7 });

    let short = scan_stream(&bytes[..whole + 15], 0);
    assert_eq!(short.frames.len(), 1);
    assert_eq!(short.tail, StreamTail::End);
}

#[test]
fn v2_segment_magic_is_written() {
    assert_eq!(magic_bytes(), b"MKW3".to_vec());
    let (meta, frames) = read_segment(&magic_bytes());
    assert_eq!(meta.magic, SegmentMagic::Valid);
    assert_eq!(meta.len, 4);
    assert_eq!(meta.end, 4);
    assert!(frames.is_empty());
}

#[test]
fn foreign_magic_names_the_file() {
    let (meta, _) = read_segment(&[9, 0, 0, 0, 1, 2, 3]);
    assert_eq!(meta.magic, SegmentMagic::Foreign);
    let image = SegmentImage {
        start_seq: 0,
        path: "log/wal-seq000000.seg".to_string(),
        meta,
        frames: Vec::new(),
    };
    assert_eq!(
        image.validate_segment_magic().unwrap_err(),
        WalError::Format(FormatIssue::LegacySegment {
            path: "log/wal-seq000000.seg".to_string()
        })
    );
    assert_eq!(read_segment(&[1, 2]).0.magic, SegmentMagic::Missing);
}

#[test]
fn decoded_frame_reports_corrupt_entries() {
    let bytes = write_frame(b"not an entry", 2).unwrap();
    let frame = RawFrame::read_from(&bytes, 0).unwrap().unwrap();
    let decoded = DecodedFrame {
        frame,
        entry: Err("no such tag".to_string()),
        binding: Ok(Vec::new()),
    };
    assert_eq!(
        decoded.decode().unwrap_err(),
        WalError::Format(FormatIssue::CorruptEntry {
            offset: 0,
            detail: "no such tag".to_string()
        })
    );
}

#[test]
fn duplicated_records_are_equal() {
    let record = WalRecord {
        seq: 3,
        mutations: vec![
            SerializedMutation::Spawn { entity: 1, components: vec![(0, vec![1, 2])] },
            SerializedMutation::Despawn { entity: 2 },
            SerializedMutation::Insert { entity: 3, component_id: 4, data: vec![5] },
            SerializedMutation::Remove { entity: 6, component_id: 7 },
            SerializedMutation::SparseInsert { entity: 8, component_id: 9, data: vec![] },
            SerializedMutation::SparseRemove { entity: 10, component_id: 11 },
        ],
        tick_after: 12,
    };
    assert_eq!(record.duplicate(), record);
}
