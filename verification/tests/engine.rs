use crab_db::actor::{handle_message, FileActorMessage, FileActorResponse, ReadError};
use crab_db::manager::{SegmentManager, MAX_SEGMENT_SIZE};
use crab_db::manifest::SegmentMapData;
use crab_db::merger::{compaction_follows, write_new_segment_file, MergerEvent};
use crab_db::segment::Segment;

#[test]
fn write_then_read_returns_the_value() {
    let mut mgr = SegmentManager::new();
    let flush = mgr.put("a".to_string(), b"hello".to_vec());
    assert!(!flush);
    let got = mgr.get("a".to_string());
    assert_eq!(got, Some(b"hello".to_vec()));
}

#[test]
fn overwrite_returns_latest_and_adjusts_size() {
    let mut mgr = SegmentManager::new();
    mgr.put("a".to_string(), b"hello".to_vec());
    assert_eq!(mgr.size(), 5);
    mgr.put("a".to_string(), b"world".to_vec());
    assert_eq!(mgr.get("a".to_string()), Some(b"world".to_vec()));
    assert_eq!(mgr.size(), "world".len());

    mgr.put("a".to_string(), b"hi".to_vec());
    assert_eq!(mgr.size(), 2);
}

#[test]
fn read_of_missing_key_is_absent_not_an_error() {
    let mgr = SegmentManager::new();
    assert_eq!(mgr.get("missing".to_string()), None);
}

#[test]
fn flush_signal_fires_exactly_at_the_threshold() {
    let mut mgr = SegmentManager::new();
    // 2047 bytes of payload: still below the threshold, no signal.
    let almost = vec![0u8; MAX_SEGMENT_SIZE - 1];
    assert!(!mgr.put("bulk".to_string(), almost));
    // The write that reaches the threshold signals.
    assert!(mgr.put("one-more".to_string(), vec![1u8]));
    assert_eq!(mgr.size(), MAX_SEGMENT_SIZE);

    // The live segment right after the flush swap is empty.
    let mut manifest = SegmentMapData::new();
    let plan = write_new_segment_file(&mut mgr.current_segment, &mut manifest, 77);
    assert_eq!(mgr.size(), 0);
    assert_eq!(mgr.get("bulk".to_string()), None);
    assert_eq!(plan.file_name, "segment-77");
}

#[test]
fn threshold_writes_list_one_new_segment_in_the_manifest() {
    let mut mgr = SegmentManager::new();
    let mut manifest = SegmentMapData::new();
    let mut signalled = false;
    let mut i = 0u32;
    while !signalled {
        // Distinct keys, 32 bytes of payload each.
        signalled = mgr.put(format!("key-{}", i), vec![7u8; 32]);
        i += 1;
    }
    let size_at_crossing = mgr.size();
    assert!(size_at_crossing >= MAX_SEGMENT_SIZE);

    // The merger reacts to the notification with one flush round.
    assert!(!compaction_follows(&MergerEvent::FlushNotice));
    let plan = write_new_segment_file(&mut mgr.current_segment, &mut manifest, 123456);

    let reloaded = SegmentMapData::load(&plan.manifest_bytes).unwrap();
    assert_eq!(reloaded.data, vec!["segment-123456".to_string()]);
    assert!(mgr.size() < size_at_crossing);
    assert_eq!(mgr.size(), 0);
}

#[test]
fn flushed_snapshot_reloads_to_the_flushed_contents() {
    let mut mgr = SegmentManager::new();
    mgr.put("a".to_string(), b"hello".to_vec());
    let mut manifest = SegmentMapData::new();
    let plan = write_new_segment_file(&mut mgr.current_segment, &mut manifest, 5);
    assert_eq!(plan.file_name, "segment-5");
    let snapshot = crab_db::snapshot::decode_segment(&plan.segment_bytes).unwrap();
    assert_eq!(snapshot.read_segment("a".to_string()), Some(b"hello".to_vec()));
    assert_eq!(snapshot.size(), 5);
}

#[test]
fn actor_write_acks_and_read_answers() {
    let mut mgr = SegmentManager::new();
    let (resp, flush) = handle_message(
        &mut mgr,
        FileActorMessage::WriteData {
            key: "a".to_string(),
            data: b"hello".to_vec(),
        },
    );
    assert_eq!(resp, FileActorResponse::Written(0));
    assert!(!flush);

    let (resp, flush) = handle_message(&mut mgr, FileActorMessage::ReadData { key: "a".to_string() });
    assert_eq!(resp, FileActorResponse::Read(Ok(b"hello".to_vec())));
    assert!(!flush);

    let (resp, _) = handle_message(&mut mgr, FileActorMessage::ReadData { key: "b".to_string() });
    assert_eq!(resp, FileActorResponse::Read(Err(ReadError::KeyNotFound)));
}

#[test]
fn compaction_runs_on_the_timer_path_only() {
    assert!(compaction_follows(&MergerEvent::TimerTick));
    assert!(!compaction_follows(&MergerEvent::FlushNotice));
}

#[test]
fn segment_split_returns_contents_and_leaves_empty() {
    let mut seg = Segment::new();
    seg.write_segment("k".to_string(), b"value".to_vec());
    assert_eq!(seg.size(), 5);
    let taken = seg.split_segment();
    assert_eq!(taken.size(), 5);
    assert_eq!(taken.read_segment("k".to_string()), Some(b"value".to_vec()));
    assert_eq!(seg.size(), 0);
    assert_eq!(seg.read_segment("k".to_string()), None);
}
