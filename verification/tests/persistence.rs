use crab_db::codec::size_from_bytes;
use crab_db::errors::EngineError;
use crab_db::manifest::SegmentMapData;
use crab_db::merge::merge_segments;
use crab_db::merger::{compact_segments, segment_file_name, u64_to_dec_string};
use crab_db::record::Record;
use crab_db::segment::Segment;
use crab_db::snapshot::{decode_segment, encode_segment};

fn segment_of(entries: &[(&str, &[u8])]) -> Segment {
    let mut seg = Segment::new();
    for (k, v) in entries {
        seg.write_segment(k.to_string(), v.to_vec());
    }
    seg
}

#[test]
fn snapshot_round_trip_restores_entries_and_size() {
    let seg = segment_of(&[("alpha", b"one"), ("beta", b"two-and-more"), ("gamma", b"")]);
    let bytes = encode_segment(&seg);
    let back = decode_segment(&bytes).unwrap();
    assert_eq!(back.size(), seg.size());
    assert_eq!(back.read_segment("alpha".to_string()), Some(b"one".to_vec()));
    assert_eq!(
        back.read_segment("beta".to_string()),
        Some(b"two-and-more".to_vec())
    );
    assert_eq!(back.read_segment("gamma".to_string()), Some(b"".to_vec()));
    assert_eq!(back.read_segment("delta".to_string()), None);
}

#[test]
fn snapshot_round_trip_keeps_non_ascii_keys() {
    let seg = segment_of(&[("clé-日本", b"v1")]);
    let bytes = encode_segment(&seg);
    let back = decode_segment(&bytes).unwrap();
    assert_eq!(back.read_segment("clé-日本".to_string()), Some(b"v1".to_vec()));
}

#[test]
fn corrupt_snapshots_are_rejected() {
    // Too short for the size and count header.
    assert!(decode_segment(&vec![1, 2, 3]).is_none());
    // Count promises an entry that is not there.
    let mut bytes = 0u64.to_le_bytes().to_vec();
    bytes.extend_from_slice(&1u64.to_le_bytes());
    assert!(decode_segment(&bytes).is_none());
    // Trailing garbage after a valid snapshot.
    let seg = segment_of(&[("k", b"v")]);
    bytes = encode_segment(&seg);
    bytes.push(0);
    assert!(decode_segment(&bytes).is_none());
    // A key that is not UTF-8.
    let mut bad = 0u64.to_le_bytes().to_vec();
    bad.extend_from_slice(&1u64.to_le_bytes());
    bad.extend_from_slice(&1u64.to_le_bytes());
    bad.push(0xFF);
    bad.extend_from_slice(&0u64.to_le_bytes());
    assert!(decode_segment(&bad).is_none());
    // The same key framed twice.
    let mut dup = 2u64.to_le_bytes().to_vec();
    dup.extend_from_slice(&2u64.to_le_bytes());
    for _ in 0..2 {
        dup.extend_from_slice(&1u64.to_le_bytes());
        dup.push(b'k');
        dup.extend_from_slice(&1u64.to_le_bytes());
        dup.push(b'v');
    }
    assert!(decode_segment(&dup).is_none());
}

#[test]
fn snapshot_size_header_must_match_the_values() {
    let snap = |size: u64| {
        let mut bytes = size.to_le_bytes().to_vec();
        bytes.extend_from_slice(&1u64.to_le_bytes());
        bytes.extend_from_slice(&1u64.to_le_bytes());
        bytes.push(b'k');
        bytes.extend_from_slice(&1u64.to_le_bytes());
        bytes.push(b'v');
        bytes
    };
    let good = decode_segment(&snap(1)).unwrap();
    assert_eq!(good.size(), 1);
    assert!(decode_segment(&snap(5)).is_none());
}

#[test]
fn serialization_is_deterministic_across_write_orders() {
    let one = segment_of(&[("b", b"2"), ("a", b"1"), ("c", b"3")]);
    let two = segment_of(&[("c", b"3"), ("a", b"1"), ("b", b"2")]);
    assert_eq!(encode_segment(&one), encode_segment(&two));
}

#[test]
fn unsorted_snapshots_are_rejected() {
    // Keys out of ascending order never come from the engine.
    let mut bytes = 2u64.to_le_bytes().to_vec();
    bytes.extend_from_slice(&2u64.to_le_bytes());
    for key in [b"b", b"a"] {
        bytes.extend_from_slice(&1u64.to_le_bytes());
        bytes.extend_from_slice(key);
        bytes.extend_from_slice(&1u64.to_le_bytes());
        bytes.push(b'v');
    }
    assert!(decode_segment(&bytes).is_none());
}

#[test]
fn manifest_of_a_fresh_engine_is_empty() {
    let loaded = SegmentMapData::load(&Vec::new()).unwrap();
    assert!(loaded.data.is_empty());
}

#[test]
fn corrupt_manifests_are_rejected() {
    assert!(SegmentMapData::load(&vec![9, 9]).is_none());
    let mut bytes = SegmentMapData::new().append_and_persist("segment-1".to_string());
    bytes.push(0);
    assert!(SegmentMapData::load(&bytes).is_none());
}

#[test]
fn merge_lets_the_newer_segment_win() {
    let older = segment_of(&[("k1", b"a")]);
    let newer = segment_of(&[("k1", b"b"), ("k2", b"c")]);
    let merged = merge_segments(&vec![older, newer]).unwrap();
    assert_eq!(merged.read_segment("k1".to_string()), Some(b"b".to_vec()));
    assert_eq!(merged.read_segment("k2".to_string()), Some(b"c".to_vec()));
    assert_eq!(merged.read_segment("k3".to_string()), None);
    assert_eq!(merged.size(), 2);
}

#[test]
fn compaction_registers_one_merged_segment() {
    let mut manifest = SegmentMapData::new();
    manifest.append_and_persist("segment-1".to_string());
    manifest.append_and_persist("segment-2".to_string());

    let older = segment_of(&[("k1", b"a")]);
    let newer = segment_of(&[("k1", b"b"), ("k2", b"c")]);
    let plan = compact_segments(&mut manifest, &vec![older, newer], 99).unwrap();

    assert_eq!(plan.file_name, "segment-99");
    assert_eq!(
        manifest.data,
        vec![
            "segment-1".to_string(),
            "segment-2".to_string(),
            "segment-99".to_string()
        ]
    );
    let reloaded = SegmentMapData::load(&plan.manifest_bytes).unwrap();
    assert_eq!(reloaded.data, manifest.data);

    let merged = decode_segment(&plan.segment_bytes).unwrap();
    assert_eq!(merged.read_segment("k1".to_string()), Some(b"b".to_vec()));
    assert_eq!(merged.read_segment("k2".to_string()), Some(b"c".to_vec()));
}

#[test]
fn segment_file_names_come_from_the_timestamp() {
    assert_eq!(segment_file_name(0), "segment-0");
    assert_eq!(segment_file_name(1234), "segment-1234");
    assert_eq!(
        segment_file_name(u64::MAX),
        "segment-18446744073709551615"
    );
    assert_eq!(u64_to_dec_string(907), "907");
    assert_eq!(u64_to_dec_string(10), "10");
}

#[test]
fn size_header_reads_little_endian() {
    assert_eq!(size_from_bytes(vec![0x10, 0, 0, 0]), 16);
    assert_eq!(size_from_bytes(vec![0x01, 0x02, 0, 0, 0xAA]), 0x0201);
}

#[test]
fn record_log_round_trip() {
    let mut record = Record::new();
    // A record carries its own size header: 9 bytes in all.
    let mut data = 9u32.to_le_bytes().to_vec();
    data.extend_from_slice(b"hello");
    record.write_record("a".to_string(), data.clone());
    assert_eq!(record.read_record("a".to_string()), Ok(Some(data.clone())));
    // A missing key is absent, not an error.
    assert_eq!(record.read_record("b".to_string()), Ok(None));

    // Rewriting the key points it at the newer record.
    let mut data2 = 10u32.to_le_bytes().to_vec();
    data2.extend_from_slice(b"world!");
    record.write_record("a".to_string(), data2.clone());
    assert_eq!(record.read_record("a".to_string()), Ok(Some(data2)));
}

#[test]
fn record_log_truncated_header_is_an_io_error() {
    let mut record = Record::new();
    record.write_record("a".to_string(), vec![1, 2]);
    assert_eq!(record.read_record("a".to_string()), Err(EngineError::Io));
}

#[test]
fn record_log_clamps_an_oversized_header() {
    let mut record = Record::new();
    let mut data = 100u32.to_le_bytes().to_vec();
    data.extend_from_slice(b"short");
    record.write_record("a".to_string(), data.clone());
    // The header promises 100 bytes; only what the log holds comes back.
    assert_eq!(record.read_record("a".to_string()), Ok(Some(data)));
}
