//! End-to-end scenarios: a consumer group drains keyed traffic, and a
//! keyless workload is spread round-robin and read back in order.

use streamcore::engine::PollStart;
use streamcore::registry::Registry;

fn payload(n: u64) -> Vec<u8> {
    n.to_le_bytes().to_vec()
}

#[test]
fn three_members_drain_one_thousand_keyed_messages() {
    let mut reg = Registry::new();
    reg.create_stream(1, b"dev".to_vec()).unwrap();
    reg.create_topic(1, 1, b"events".to_vec(), 3).unwrap();
    reg.create_consumer_group(10, 1, 1).unwrap();
    for member in [100, 101, 102] {
        reg.join_consumer_group(10, member).unwrap();
    }
    // each member holds exactly one partition
    {
        let g = reg.get_consumer_group(10).unwrap();
        for member in [100, 101, 102] {
            assert_eq!(g.member_partitions(member).unwrap().len(), 1);
        }
    }
    for entity in 1..=1000u64 {
        reg.send_messages(1, 1, Some(entity), &vec![payload(entity)]).unwrap();
    }
    // polling every member to exhaustion yields 1000 messages, no duplicates
    let mut entities = Vec::new();
    for member in [100, 101, 102] {
        loop {
            let msgs = reg.poll_messages(member, 1, 1, 0, PollStart::NextUnread, 1, true).unwrap();
            if msgs.is_empty() {
                break;
            }
            for m in msgs {
                let mut eight = [0u8; 8];
                eight.copy_from_slice(&m.payload);
                entities.push(u64::from_le_bytes(eight));
            }
        }
    }
    assert_eq!(entities.len(), 1000);
    entities.sort();
    entities.dedup();
    assert_eq!(entities.len(), 1000, "no entity id is delivered twice");
}

#[test]
fn round_robin_spreads_three_thousand_messages_evenly_and_in_order() {
    let mut reg = Registry::new();
    reg.create_stream(1, b"dev".to_vec()).unwrap();
    reg.create_topic(1, 1, b"events".to_vec(), 3).unwrap();
    let batch: Vec<Vec<u8>> = (0..3000u64).map(payload).collect();
    reg.send_messages(1, 1, None, &batch).unwrap();
    for pid in 1..=3u32 {
        let mut offset_expected: u64 = 0;
        loop {
            let msgs = reg
                .poll_messages(pid, 1, 1, pid, PollStart::NextUnread, 100, true)
                .unwrap();
            if msgs.is_empty() {
                break;
            }
            for m in msgs {
                // offsets are gapless and strictly increasing
                assert_eq!(m.offset, offset_expected);
                // message i of the batch went to partition (i mod 3) + 1
                let mut eight = [0u8; 8];
                eight.copy_from_slice(&m.payload);
                let entity = u64::from_le_bytes(eight);
                assert_eq!(entity % 3 + 1, pid as u64);
                assert_eq!(entity / 3, m.offset);
                offset_expected += 1;
            }
        }
        assert_eq!(offset_expected, 1000, "each partition received exactly 1000 messages");
    }
}
