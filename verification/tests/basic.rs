use crab_db::common::RecordMessage;
use crab_db::manifest::SegmentMapData;

#[test]
fn it_works() {
    assert_eq!(2 + 2, 4);
}

#[test]
fn test_segment_map_serde() {
    let mut segment_map_data = SegmentMapData::new();

    let bytes_1 = segment_map_data.append_and_persist("segment-1".to_string());
    assert_eq!(segment_map_data.data, vec!["segment-1".to_string()]);
    let reloaded_1 = SegmentMapData::load(&bytes_1).unwrap();
    assert_eq!(reloaded_1.data, segment_map_data.data);

    let bytes_2 = segment_map_data.append_and_persist("segment-2".to_string());
    let reloaded_2 = SegmentMapData::load(&bytes_2).unwrap();
    assert_eq!(
        reloaded_2.data,
        vec!["segment-1".to_string(), "segment-2".to_string()]
    );
}

#[test]
fn record_message_holds_its_fields() {
    let msg = RecordMessage {
        key: "Hello".to_string(),
        data: "Stuff".to_string(),
    };
    assert_eq!(msg.key, "Hello");
    assert_eq!(msg.data, "Stuff");
}
