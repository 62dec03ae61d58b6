use streamcore::engine::PollStart;
use streamcore::error::CoreError;
use streamcore::registry::Registry;

fn registry_with_topic(partitions: u32) -> Registry {
    let mut reg = Registry::new();
    reg.create_stream(1, b"dev".to_vec()).unwrap();
    reg.create_topic(1, 1, b"events".to_vec(), partitions).unwrap();
    reg
}

fn payload(n: u64) -> Vec<u8> {
    n.to_le_bytes().to_vec()
}

#[test]
fn offsets_are_monotonic_and_exhaustion_is_idempotent() {
    let mut reg = registry_with_topic(1);
    let n: u64 = 5;
    for i in 0..n {
        reg.send_messages(1, 1, None, &vec![payload(i)]).unwrap();
    }
    // polling one message at a time returns offsets 0..n in order
    for expect in 0..n {
        let msgs = reg.poll_messages(7, 1, 1, 1, PollStart::NextUnread, 1, true).unwrap();
        assert_eq!(msgs.len(), 1);
        assert_eq!(msgs[0].offset, expect);
        assert_eq!(msgs[0].payload, payload(expect));
    }
    // then the partition is exhausted: empty, and empty again
    let empty = reg.poll_messages(7, 1, 1, 1, PollStart::NextUnread, 1, true).unwrap();
    assert_eq!(empty.len(), 0);
    let again = reg.poll_messages(7, 1, 1, 1, PollStart::NextUnread, 1, true).unwrap();
    assert_eq!(again.len(), 0);
}

#[test]
fn auto_commit_never_redelivers_nor_skips() {
    let mut reg = registry_with_topic(1);
    for i in 0..6u64 {
        reg.send_messages(1, 1, None, &vec![payload(i)]).unwrap();
    }
    let first = reg.poll_messages(7, 1, 1, 1, PollStart::NextUnread, 4, true).unwrap();
    let second = reg.poll_messages(7, 1, 1, 1, PollStart::NextUnread, 4, true).unwrap();
    let offsets: Vec<u64> =
        first.iter().chain(second.iter()).map(|m| m.offset).collect();
    assert_eq!(offsets, vec![0, 1, 2, 3, 4, 5]);
}

#[test]
fn poll_without_auto_commit_rereads_from_same_offset() {
    let mut reg = registry_with_topic(1);
    for i in 0..3u64 {
        reg.send_messages(1, 1, None, &vec![payload(i)]).unwrap();
    }
    let a = reg.poll_messages(7, 1, 1, 1, PollStart::NextUnread, 2, false).unwrap();
    let b = reg.poll_messages(7, 1, 1, 1, PollStart::NextUnread, 2, false).unwrap();
    assert_eq!(a.len(), 2);
    assert_eq!(b.len(), 2);
    assert_eq!(a[0].offset, b[0].offset);
    assert_eq!(a[1].offset, b[1].offset);
}

#[test]
fn poll_explicit_offset_first_and_last() {
    let mut reg = registry_with_topic(1);
    for i in 0..4u64 {
        reg.send_messages(1, 1, None, &vec![payload(i)]).unwrap();
    }
    let at = reg.poll_messages(7, 1, 1, 1, PollStart::Offset(2), 10, false).unwrap();
    assert_eq!(at.iter().map(|m| m.offset).collect::<Vec<_>>(), vec![2, 3]);
    let first = reg.poll_messages(7, 1, 1, 1, PollStart::First, 1, false).unwrap();
    assert_eq!(first[0].offset, 0);
    let last = reg.poll_messages(7, 1, 1, 1, PollStart::Last, 10, false).unwrap();
    assert_eq!(last.iter().map(|m| m.offset).collect::<Vec<_>>(), vec![3]);
}

#[test]
fn keyed_routing_is_deterministic() {
    let mut reg = registry_with_topic(3);
    for _ in 0..10 {
        reg.send_messages(1, 1, Some(42), &vec![payload(42)]).unwrap();
    }
    // all ten land on partition (42 mod 3) + 1 == 1
    let msgs = reg.poll_messages(7, 1, 1, 1, PollStart::NextUnread, 100, false).unwrap();
    assert_eq!(msgs.len(), 10);
    for other in [2, 3] {
        let empty = reg.poll_messages(7, 1, 1, other, PollStart::NextUnread, 100, false).unwrap();
        assert_eq!(empty.len(), 0);
    }
}

#[test]
fn round_robin_spreads_a_batch_evenly() {
    let mut reg = registry_with_topic(3);
    let k = 4;
    let batch: Vec<Vec<u8>> = (0..3 * k).map(|i| payload(i as u64)).collect();
    reg.send_messages(1, 1, None, &batch).unwrap();
    for pid in 1..=3u32 {
        let msgs = reg.poll_messages(7, 1, 1, pid, PollStart::NextUnread, 100, false).unwrap();
        assert_eq!(msgs.len(), k, "over k full cycles each partition receives k");
    }
}

#[test]
fn poll_missing_stream_topic_or_partition_is_not_found() {
    let mut reg = registry_with_topic(2);
    assert!(matches!(
        reg.poll_messages(7, 9, 1, 1, PollStart::NextUnread, 1, true),
        Err(CoreError::NotFound)
    ));
    assert!(matches!(
        reg.poll_messages(7, 1, 9, 1, PollStart::NextUnread, 1, true),
        Err(CoreError::NotFound)
    ));
    assert!(matches!(
        reg.poll_messages(7, 1, 1, 3, PollStart::NextUnread, 1, true),
        Err(CoreError::NotFound)
    ));
}

#[test]
fn group_poll_without_assignment_is_invalid_state() {
    let mut reg = registry_with_topic(2);
    assert!(matches!(
        reg.poll_messages(7, 1, 1, 0, PollStart::NextUnread, 1, true),
        Err(CoreError::InvalidState)
    ));
}

#[test]
fn create_stream_rejects_bad_names_and_duplicates() {
    let mut reg = Registry::new();
    assert_eq!(reg.create_stream(1, Vec::new()), Err(CoreError::InvalidState));
    assert_eq!(reg.create_stream(1, vec![0xff, 0xfe]), Err(CoreError::InvalidState));
    reg.create_stream(1, b"dev".to_vec()).unwrap();
    assert_eq!(reg.create_stream(1, b"dev2".to_vec()), Err(CoreError::AlreadyExists));
}

#[test]
fn create_topic_rejects_zero_partitions_and_duplicates() {
    let mut reg = Registry::new();
    reg.create_stream(1, b"dev".to_vec()).unwrap();
    assert_eq!(reg.create_topic(1, 1, b"t".to_vec(), 0), Err(CoreError::InvalidState));
    reg.create_topic(1, 1, b"t".to_vec(), 2).unwrap();
    assert_eq!(reg.create_topic(1, 1, b"t".to_vec(), 2), Err(CoreError::AlreadyExists));
    assert_eq!(reg.create_topic(9, 1, b"t".to_vec(), 2), Err(CoreError::NotFound));
}

#[test]
fn listing_reflects_registry_contents() {
    let mut reg = Registry::new();
    reg.create_stream(2, b"beta".to_vec()).unwrap();
    reg.create_stream(1, b"alpha".to_vec()).unwrap();
    reg.create_topic(1, 1, b"t1".to_vec(), 1).unwrap();
    reg.create_topic(1, 2, b"t2".to_vec(), 1).unwrap();
    let listing = streamcore::codec::sort_streams_by_id(reg.list_streams());
    assert_eq!(listing.len(), 2);
    assert_eq!(listing[0].id, 1);
    assert_eq!(listing[0].topic_count, 2);
    assert_eq!(listing[0].name, b"alpha".to_vec());
    assert_eq!(listing[1].id, 2);
    assert_eq!(listing[1].topic_count, 0);
    assert_eq!(listing[1].name, b"beta".to_vec());
}
