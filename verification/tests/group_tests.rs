use streamcore::error::CoreError;
use streamcore::registry::Registry;

fn registry_with_topic(partitions: u32) -> Registry {
    let mut reg = Registry::new();
    reg.create_stream(1, b"dev".to_vec()).unwrap();
    reg.create_topic(1, 1, b"events".to_vec(), partitions).unwrap();
    reg
}

fn member_partitions(reg: &Registry, group_id: u32, member_id: u32) -> Vec<u32> {
    let g = reg.get_consumer_group(group_id).expect("group exists");
    g.member_partitions(member_id).expect("member exists").clone()
}

#[test]
fn assignment_is_complete_and_disjoint() {
    let mut reg = registry_with_topic(3);
    reg.create_consumer_group(10, 1, 1).unwrap();
    for member in [100, 101, 102] {
        reg.join_consumer_group(10, member).unwrap();
    }
    let mut seen = Vec::new();
    for member in [100, 101, 102] {
        let parts = member_partitions(&reg, 10, member);
        assert_eq!(parts.len(), 1, "three members over three partitions get one each");
        seen.extend(parts);
    }
    seen.sort();
    assert_eq!(seen, vec![1, 2, 3]);
}

#[test]
fn assignment_sizes_differ_by_at_most_one() {
    let mut reg = registry_with_topic(5);
    reg.create_consumer_group(10, 1, 1).unwrap();
    reg.join_consumer_group(10, 100).unwrap();
    reg.join_consumer_group(10, 101).unwrap();
    let a = member_partitions(&reg, 10, 100);
    let b = member_partitions(&reg, 10, 101);
    assert_eq!(a.len() + b.len(), 5);
    assert!(a.len().abs_diff(b.len()) <= 1);
    assert_eq!(a, vec![1, 3, 5]);
    assert_eq!(b, vec![2, 4]);
}

#[test]
fn assignment_is_deterministic_across_replays() {
    let build = || {
        let mut reg = registry_with_topic(7);
        reg.create_consumer_group(10, 1, 1).unwrap();
        for member in [5, 9, 2] {
            reg.join_consumer_group(10, member).unwrap();
        }
        reg
    };
    let r1 = build();
    let r2 = build();
    for member in [5, 9, 2] {
        assert_eq!(
            member_partitions(&r1, 10, member),
            member_partitions(&r2, 10, member),
            "identical membership snapshots assign identically"
        );
    }
}

#[test]
fn double_join_is_idempotent() {
    let mut reg = registry_with_topic(3);
    reg.create_consumer_group(10, 1, 1).unwrap();
    reg.join_consumer_group(10, 100).unwrap();
    reg.join_consumer_group(10, 101).unwrap();
    let before = member_partitions(&reg, 10, 100);
    reg.join_consumer_group(10, 100).unwrap();
    let after = member_partitions(&reg, 10, 100);
    assert_eq!(before, after);
    let g = reg.get_consumer_group(10).unwrap();
    assert_eq!(g.members.len(), 2);
}

#[test]
fn leave_rebalances_without_orphaning_partitions() {
    let mut reg = registry_with_topic(4);
    reg.create_consumer_group(10, 1, 1).unwrap();
    for member in [100, 101, 102, 103] {
        reg.join_consumer_group(10, member).unwrap();
    }
    reg.leave_consumer_group(10, 101).unwrap();
    let mut seen = Vec::new();
    for member in [100, 102, 103] {
        seen.extend(member_partitions(&reg, 10, member));
    }
    seen.sort();
    assert_eq!(seen, vec![1, 2, 3, 4], "every partition stays owned exactly once");
    assert!(reg.get_consumer_group(10).unwrap().member_partitions(101).is_none());
}

#[test]
fn more_members_than_partitions_leaves_latecomers_empty() {
    let mut reg = registry_with_topic(3);
    reg.create_consumer_group(10, 1, 1).unwrap();
    for member in [100, 101, 102, 103, 104] {
        reg.join_consumer_group(10, member).unwrap();
    }
    let mut seen = Vec::new();
    for member in [100, 101, 102, 103, 104] {
        let parts = member_partitions(&reg, 10, member);
        assert!(parts.len() <= 1);
        seen.extend(parts);
    }
    seen.sort();
    assert_eq!(seen, vec![1, 2, 3], "every partition still owned exactly once");
}

#[test]
fn join_unknown_group_is_not_found() {
    let mut reg = registry_with_topic(3);
    assert_eq!(reg.join_consumer_group(99, 100), Err(CoreError::NotFound));
}

#[test]
fn leave_unknown_member_is_not_found() {
    let mut reg = registry_with_topic(3);
    reg.create_consumer_group(10, 1, 1).unwrap();
    assert_eq!(reg.leave_consumer_group(10, 12345), Err(CoreError::NotFound));
}

#[test]
fn create_group_for_missing_topic_is_not_found() {
    let mut reg = registry_with_topic(3);
    assert_eq!(reg.create_consumer_group(10, 1, 99), Err(CoreError::NotFound));
    assert_eq!(reg.create_consumer_group(10, 99, 1), Err(CoreError::NotFound));
}

#[test]
fn duplicate_group_id_already_exists() {
    let mut reg = registry_with_topic(3);
    reg.create_consumer_group(10, 1, 1).unwrap();
    assert_eq!(reg.create_consumer_group(10, 1, 1), Err(CoreError::AlreadyExists));
}
