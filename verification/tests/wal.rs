//! Tests of the segment planner, file naming, fsync policy, and
//! recovery.

use nori_wal::observe::{WalEvt, WalKind};
use nori_wal::record::Record;
use nori_wal::record::RecordError;
use nori_wal::recovery::{read_records, recover_segments, scan_segment, SegmentData, Truncation};
use nori_wal::segment::{
    fsync_due, insert_sorted, latest_segment_id, parse_segment_file_name, plan_append,
    segment_path, FsyncPolicy, Position, SegmentConfig, WalState,
};
use nori_wal::wal::WalConfig;

fn put_key_value() -> Record {
    Record::put(b"key".to_vec(), b"value".to_vec())
}

fn encode_many(records: &[Record]) -> Vec<u8> {
    let mut data = Vec::new();
    for r in records {
        data.extend_from_slice(&r.encode());
    }
    data
}

#[test]
fn test_segment_path_names() {
    assert_eq!(segment_path(0), "000000.wal");
    assert_eq!(segment_path(1), "000001.wal");
    assert_eq!(segment_path(123), "000123.wal");
    assert_eq!(segment_path(999999), "999999.wal");
    assert_eq!(segment_path(1234567), "1234567.wal");
}

#[test]
fn test_parse_segment_file_name() {
    assert_eq!(parse_segment_file_name("000123.wal"), Some(123));
    assert_eq!(parse_segment_file_name("000000.wal"), Some(0));
    assert_eq!(parse_segment_file_name("1234567.wal"), Some(1234567));
    assert_eq!(parse_segment_file_name("foo.wal"), None);
    assert_eq!(parse_segment_file_name("123.txt"), None);
    assert_eq!(parse_segment_file_name(".wal"), None);
    assert_eq!(parse_segment_file_name(""), None);
    assert_eq!(parse_segment_file_name("12a34.wal"), None);
    // Twenty-one digits overflow a u64 and are not a segment's name.
    assert_eq!(parse_segment_file_name("999999999999999999999.wal"), None);
}

#[test]
fn test_parse_of_generated_name_roundtrips() {
    for id in [0u64, 5, 99, 100000, 999999, 1000000, u64::MAX] {
        let name = segment_path(id);
        assert_eq!(parse_segment_file_name(&name), Some(id));
    }
}

#[test]
fn test_latest_segment_id() {
    let names = vec![
        "000000.wal".to_string(),
        "000007.wal".to_string(),
        "000003.wal".to_string(),
        "notes.txt".to_string(),
    ];
    assert_eq!(latest_segment_id(&names), 7);
    assert_eq!(latest_segment_id(&Vec::new()), 0);
}

#[test]
fn test_insert_sorted_keeps_order() {
    let mut ids: Vec<u64> = Vec::new();
    for id in [5u64, 1, 9, 3, 3] {
        insert_sorted(&mut ids, id);
    }
    assert_eq!(ids, vec![1, 3, 3, 5, 9]);
}

#[test]
fn test_segment_rotation() {
    // With a 100-byte threshold, 15-byte records rotate on the seventh
    // append: segment 0 ends holding 90 bytes.
    let record = put_key_value();
    let n = record.encode().len() as u64;
    assert_eq!(n, 15);

    let mut state = WalState { segment_id: 0, size: 0 };
    let mut positions = Vec::new();
    let mut rolls: Vec<WalEvt> = Vec::new();
    for _ in 0..7 {
        let plan = plan_append(state, n, 100, 1);
        positions.push(plan.position);
        if let Some(evt) = plan.roll {
            rolls.push(evt);
        }
        state = plan.state_after;
    }

    assert_eq!(positions[0], Position { segment_id: 0, offset: 0 });
    assert_eq!(positions[5], Position { segment_id: 0, offset: 75 });
    assert_eq!(positions[6], Position { segment_id: 1, offset: 0 });
    assert_eq!(rolls.len(), 1);
    assert_eq!(
        rolls[0],
        WalEvt { node: 1, seg: 0, kind: WalKind::SegmentRoll { bytes: 90 } }
    );
    assert_eq!(state, WalState { segment_id: 1, size: 15 });
}

#[test]
fn test_oversize_record_gets_fresh_segment() {
    // A record larger than the threshold still goes whole into a new
    // segment.
    let state = WalState { segment_id: 0, size: 10 };
    let plan = plan_append(state, 500, 100, 0);
    assert_eq!(plan.position, Position { segment_id: 1, offset: 0 });
    assert_eq!(plan.state_after, WalState { segment_id: 1, size: 500 });
}

#[test]
fn test_append_positions_strictly_increase() {
    let mut state = WalState { segment_id: 0, size: 0 };
    let mut prev: Option<Position> = None;
    for len in [15u64, 40, 60, 200, 7, 7, 93, 8] {
        let plan = plan_append(state, len, 100, 0);
        if let Some(p) = prev {
            assert!(p < plan.position);
        }
        prev = Some(plan.position);
        state = plan.state_after;
    }
}

#[test]
fn test_fsync_policy_always() {
    assert!(fsync_due(FsyncPolicy::Always, None));
    assert!(fsync_due(FsyncPolicy::Always, Some(0)));
}

#[test]
fn test_fsync_policy_os() {
    assert!(!fsync_due(FsyncPolicy::Os, None));
    assert!(!fsync_due(FsyncPolicy::Os, Some(1000)));
}

#[test]
fn test_fsync_policy_batch() {
    // Two appends within one millisecond fsync once; a third after
    // fifteen milliseconds fsyncs again.
    assert!(fsync_due(FsyncPolicy::Batch(10), None));
    assert!(!fsync_due(FsyncPolicy::Batch(10), Some(1)));
    assert!(fsync_due(FsyncPolicy::Batch(10), Some(15)));
    assert!(fsync_due(FsyncPolicy::Batch(10), Some(10)));
}

#[test]
fn test_current_position() {
    let state = WalState { segment_id: 2, size: 37 };
    assert_eq!(state.current_position(), Position { segment_id: 2, offset: 37 });
}

#[test]
fn test_defaults() {
    let wal = WalConfig::default();
    assert_eq!(wal.dir, "wal");
    assert_eq!(wal.max_segment_size, 128 * 1024 * 1024);
    assert_eq!(wal.fsync_policy, FsyncPolicy::Batch(5));
    assert_eq!(wal.node_id, 0);

    let seg = SegmentConfig::default();
    assert_eq!(seg.max_segment_size, 128 * 1024 * 1024);
    assert_eq!(seg.fsync_policy, FsyncPolicy::Batch(5));
    assert_eq!(FsyncPolicy::default(), FsyncPolicy::Batch(5));
}

#[test]
fn test_scan_counts_records() {
    let records = vec![
        Record::put(b"key1".to_vec(), b"value1".to_vec()),
        Record::put(b"key2".to_vec(), b"value2".to_vec()),
        Record::delete(b"key1".to_vec()),
    ];
    let data = encode_many(&records);
    let scan = scan_segment(&data);
    assert!(scan.clean);
    assert_eq!(scan.records, 3);
    assert_eq!(scan.good_prefix, data.len() as u64);
}

#[test]
fn test_tombstone_sequence_roundtrip() {
    // A PUT then a DELETE read back in order; the second is a tombstone
    // with an empty value.
    let records = vec![
        Record::put(b"k".to_vec(), b"v".to_vec()),
        Record::delete(b"k".to_vec()),
    ];
    let data = encode_many(&records);

    let (first, used) = Record::decode(&data).unwrap();
    assert!(!first.tombstone);
    let (second, _) = Record::decode(&data[used..]).unwrap();
    assert!(second.tombstone);
    assert_eq!(second.value.len(), 0);
    assert_eq!(second.key, b"k".to_vec());
}

#[test]
fn test_read_records_in_order() {
    // Reading from offset 0 yields the records in append order, each
    // at the offset its encoding starts at; a trailing torn write ends
    // the stream without an error.
    let put = Record::put(b"k".to_vec(), b"v".to_vec());
    let del = Record::delete(b"k".to_vec());
    let first_len = put.encode().len();
    let mut data = encode_many(&[put.clone(), del.clone()]);
    data.push(0x17); // one torn byte at the tail

    let out = read_records(&data, 0).unwrap();
    assert_eq!(out.len(), 2);
    assert_eq!(out[0].0, put);
    assert_eq!(out[0].1, 0);
    assert_eq!(out[1].0, del);
    assert_eq!(out[1].1, first_len);
}

#[test]
fn test_read_records_surfaces_corruption() {
    // Unlike recovery, a general read reports a checksum fault instead
    // of treating it as the end of the stream.
    let mut data = encode_many(&[put_key_value(), put_key_value()]);
    data[20] ^= 0x40; // inside the second record's key
    let result = read_records(&data, 0);
    assert!(matches!(result, Err(RecordError::CrcMismatch { .. })));
}

#[test]
fn test_recovery_clean_log() {
    // Five records, no corruption: all five come back and nothing is
    // truncated.
    let records: Vec<Record> =
        (0..5).map(|i| Record::put(format!("key{}", i).into_bytes(), b"value".to_vec())).collect();
    let data = encode_many(&records);
    let len = data.len() as u64;

    let (info, trunc) = recover_segments(&vec![SegmentData { id: 0, data }]);
    assert_eq!(info.valid_records, 5);
    assert_eq!(info.segments_scanned, 1);
    assert!(!info.corruption_detected);
    assert_eq!(info.truncated_bytes, 0);
    assert_eq!(info.last_position, Position { segment_id: 0, offset: len });
    assert_eq!(trunc, None);
}

#[test]
fn test_recovery_empty_log() {
    let (info, trunc) = recover_segments(&Vec::new());
    assert_eq!(info.valid_records, 0);
    assert_eq!(info.segments_scanned, 0);
    assert!(!info.corruption_detected);
    assert_eq!(info.last_position, Position { segment_id: 0, offset: 0 });
    assert_eq!(trunc, None);
}

#[test]
fn test_recovery_torn_tail() {
    // Five records then seventeen bytes of garbage: recovery keeps the
    // five and asks to cut the file back to its pre-corruption size.
    let records: Vec<Record> =
        (0..5).map(|i| Record::put(format!("key{}", i).into_bytes(), b"value".to_vec())).collect();
    let mut data = encode_many(&records);
    let clean_len = data.len() as u64;
    data.extend_from_slice(&[0xFF; 17]);

    let (info, trunc) = recover_segments(&vec![SegmentData { id: 0, data }]);
    assert_eq!(info.valid_records, 5);
    assert!(info.corruption_detected);
    assert_eq!(info.truncated_bytes, 17);
    assert_eq!(info.last_position, Position { segment_id: 0, offset: clean_len });
    assert_eq!(trunc, Some(Truncation { segment_id: 0, new_len: clean_len }));
}

#[test]
fn test_recovery_mid_segment_crc_flip() {
    // Three records; a bit flipped inside the middle record's key. The
    // first record survives, everything after the bad boundary goes,
    // and the next append lands at the truncated offset.
    let records = vec![put_key_value(), put_key_value(), put_key_value()];
    let mut data = encode_many(&records);
    assert_eq!(data.len(), 45);
    data[19] ^= 0x01; // inside the middle record's key bytes

    let (info, trunc) = recover_segments(&vec![SegmentData { id: 0, data }]);
    assert_eq!(info.valid_records, 1);
    assert!(info.corruption_detected);
    assert_eq!(info.truncated_bytes, 30);
    assert_eq!(info.last_position, Position { segment_id: 0, offset: 15 });
    assert_eq!(trunc, Some(Truncation { segment_id: 0, new_len: 15 }));

    let plan = plan_append(
        WalState {
            segment_id: info.last_position.segment_id,
            size: info.last_position.offset,
        },
        15,
        100,
        0,
    );
    assert_eq!(plan.position, Position { segment_id: 0, offset: 15 });
}

#[test]
fn test_recovery_is_idempotent() {
    // Applying the truncation recovery asks for and running it again
    // reports no corruption and the same records.
    let records = vec![put_key_value(), put_key_value()];
    let mut data = encode_many(&records);
    data.extend_from_slice(&[0xAB, 0xCD, 0xEF]);

    let (first, trunc) = recover_segments(&vec![SegmentData { id: 0, data: data.clone() }]);
    assert!(first.corruption_detected);
    let t = trunc.unwrap();
    data.truncate(t.new_len as usize);

    let (second, trunc2) = recover_segments(&vec![SegmentData { id: 0, data }]);
    assert!(!second.corruption_detected);
    assert_eq!(second.valid_records, first.valid_records);
    assert_eq!(second.truncated_bytes, 0);
    assert_eq!(second.last_position, first.last_position);
    assert_eq!(trunc2, None);
}

#[test]
fn test_recovery_multiple_segments() {
    // A clean run over several segments counts them all and resumes at
    // the end of the last.
    let seg0 = encode_many(&[put_key_value(), put_key_value()]);
    let seg1 = encode_many(&[put_key_value()]);
    let seg1_len = seg1.len() as u64;

    let (info, trunc) = recover_segments(&vec![
        SegmentData { id: 0, data: seg0 },
        SegmentData { id: 1, data: seg1 },
    ]);
    assert_eq!(info.valid_records, 3);
    assert_eq!(info.segments_scanned, 2);
    assert!(!info.corruption_detected);
    assert_eq!(info.last_position, Position { segment_id: 1, offset: seg1_len });
    assert_eq!(trunc, None);
}

#[test]
fn test_recovery_stops_at_first_bad_segment() {
    // Corruption in the first of two segments ends the run there; the
    // later segment is not considered.
    let mut seg0 = encode_many(&[put_key_value()]);
    let seg0_len = seg0.len() as u64;
    seg0.extend_from_slice(&[0x00, 0x01]);
    let seg1 = encode_many(&[put_key_value()]);

    let (info, trunc) = recover_segments(&vec![
        SegmentData { id: 0, data: seg0 },
        SegmentData { id: 1, data: seg1 },
    ]);
    assert_eq!(info.segments_scanned, 1);
    assert_eq!(info.valid_records, 1);
    assert!(info.corruption_detected);
    assert_eq!(info.truncated_bytes, 2);
    assert_eq!(trunc, Some(Truncation { segment_id: 0, new_len: seg0_len }));
}
