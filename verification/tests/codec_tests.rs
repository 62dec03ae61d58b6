use streamcore::codec::{
    check_status, decode_streams, encode_streams, sort_streams_by_id, StreamInfo,
};
use streamcore::error::CoreError;

fn record(id: u32, topic_count: u32, name: &str) -> StreamInfo {
    StreamInfo { id, topic_count, name: name.as_bytes().to_vec() }
}

fn assert_same(a: &StreamInfo, b: &StreamInfo) {
    assert_eq!(a.id, b.id);
    assert_eq!(a.topic_count, b.topic_count);
    assert_eq!(a.name, b.name);
}

#[test]
fn round_trip_preserves_records_in_order() {
    let records = vec![record(7, 2, "orders"), record(3, 0, "metrics"), record(9, 5, "logs")];
    let bytes = encode_streams(&records);
    let decoded = decode_streams(&bytes).expect("a full encoding must decode");
    assert_eq!(decoded.len(), 3);
    for (a, b) in records.iter().zip(decoded.iter()) {
        assert_same(a, b);
    }
}

#[test]
fn round_trip_empty_listing() {
    let records: Vec<StreamInfo> = Vec::new();
    let bytes = encode_streams(&records);
    assert_eq!(bytes.len(), 0);
    let decoded = decode_streams(&bytes).expect("an empty payload is an empty listing");
    assert_eq!(decoded.len(), 0);
}

#[test]
fn round_trip_empty_name() {
    let records = vec![record(1, 0, "")];
    let bytes = encode_streams(&records);
    assert_eq!(bytes.len(), 12);
    let decoded = decode_streams(&bytes).unwrap();
    assert_eq!(decoded.len(), 1);
    assert_same(&records[0], &decoded[0]);
}

#[test]
fn truncation_by_every_cut_is_malformed() {
    let records = vec![record(7, 2, "orders"), record(3, 0, "metrics")];
    let bytes = encode_streams(&records);
    // the last record occupies 12 + "metrics".len() = 19 bytes
    for cut in 1..19 {
        let t = &bytes[..bytes.len() - cut];
        assert!(matches!(decode_streams(t), Err(CoreError::MalformedPayload)), "cut {cut}");
    }
    // cutting the whole last record leaves a valid shorter listing
    let t = &bytes[..bytes.len() - 19];
    let decoded = decode_streams(t).unwrap();
    assert_eq!(decoded.len(), 1);
    assert_same(&records[0], &decoded[0]);
}

#[test]
fn header_shorter_than_twelve_bytes_is_malformed() {
    assert!(matches!(decode_streams(&[1, 0, 0]), Err(CoreError::MalformedPayload)));
}

#[test]
fn name_length_overrunning_buffer_is_malformed() {
    let mut bytes = Vec::new();
    bytes.extend_from_slice(&1u32.to_le_bytes());
    bytes.extend_from_slice(&0u32.to_le_bytes());
    bytes.extend_from_slice(&100u32.to_le_bytes()); // claims 100 name bytes
    bytes.extend_from_slice(b"abc"); // only three are there
    assert!(matches!(decode_streams(&bytes), Err(CoreError::MalformedPayload)));
}

#[test]
fn invalid_utf8_name_is_malformed() {
    let mut bytes = Vec::new();
    bytes.extend_from_slice(&1u32.to_le_bytes());
    bytes.extend_from_slice(&0u32.to_le_bytes());
    bytes.extend_from_slice(&2u32.to_le_bytes());
    bytes.extend_from_slice(&[0xff, 0xfe]); // not UTF-8
    assert!(matches!(decode_streams(&bytes), Err(CoreError::MalformedPayload)));
}

#[test]
fn multibyte_utf8_name_round_trips() {
    let records = vec![record(4, 1, "tópico-ß")];
    let bytes = encode_streams(&records);
    let decoded = decode_streams(&bytes).unwrap();
    assert_eq!(decoded.len(), 1);
    assert_same(&records[0], &decoded[0]);
}

#[test]
fn status_zero_is_success() {
    assert!(check_status(0).is_ok());
}

#[test]
fn nonzero_status_is_protocol_error_with_code() {
    assert_eq!(check_status(7), Err(CoreError::ProtocolStatus(7)));
    assert_eq!(check_status(255), Err(CoreError::ProtocolStatus(255)));
}

#[test]
fn sorting_orders_by_ascending_id() {
    let records = vec![record(9, 0, "c"), record(1, 0, "a"), record(5, 0, "b"), record(1, 3, "a2")];
    let sorted = sort_streams_by_id(records);
    let ids: Vec<u32> = sorted.iter().map(|s| s.id).collect();
    assert_eq!(ids, vec![1, 1, 5, 9]);
}
