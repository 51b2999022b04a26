use std::collections::HashSet;
use vertex_engine::snowflake_id::{SnowFlakeGenerator, MAX_DATACENTER_ID, MAX_MACHINE_ID};

#[test]
fn new_valid_min_ids() {
    let mut generator = SnowFlakeGenerator::new(0, 0);
    let id = generator.next_id();
    assert!(id > 0);
}

#[test]
fn new_valid_max_ids() {
    let mut generator = SnowFlakeGenerator::new(MAX_MACHINE_ID, MAX_DATACENTER_ID);
    let id = generator.next_id();
    assert!(id > 0);
}

#[test]
fn next_id_monotonically_increasing() {
    let mut generator = SnowFlakeGenerator::new(1, 1);
    let mut prev = generator.next_id();
    for _ in 0..100 {
        let current = generator.next_id();
        assert!(current > prev, "IDs must be monotonically increasing");
        prev = current;
    }
}

#[test]
fn ids_encode_machine_and_datacenter_bits() {
    let mut generator = SnowFlakeGenerator::new(5, 10);
    let id = generator.next_id();
    let machine_id = (id >> 12) & 0x1F;
    let datacenter_id = (id >> 17) & 0x1F;
    assert_eq!(machine_id, 5, "machine_id should be encoded in bits 12-16");
    assert_eq!(
        datacenter_id, 10,
        "datacenter_id should be encoded in bits 17-21"
    );
}

#[test]
fn different_generators_produce_different_ids() {
    let mut generator1 = SnowFlakeGenerator::new(1, 1);
    let mut generator2 = SnowFlakeGenerator::new(2, 2);
    let id1 = generator1.next_id();
    let id2 = generator2.next_id();
    assert_ne!(id1, id2);
}

#[test]
fn multiple_ids_no_collisions() {
    let mut generator = SnowFlakeGenerator::new(1, 1);
    let mut seen = HashSet::new();
    for _ in 0..1000 {
        let id = generator.next_id();
        assert!(seen.insert(id), "Duplicate ID generated: {}", id);
    }
}

#[test]
fn next_id_at_waits_for_the_clock() {
    let mut g = SnowFlakeGenerator::new(3, 4);
    let now: u64 = 1_750_000_000_000;
    let first = g.next_id_at(now).unwrap();
    assert_eq!(first, ((now - 1_704_067_200_000) << 22) | (4 << 17) | (3 << 12));
    // a clock that moved back issues nothing
    assert_eq!(g.next_id_at(now - 1), None);
    // the same millisecond takes the next sequence values, up to 4095
    for s in 1..4096u64 {
        assert_eq!(g.next_id_at(now), Some(first | s));
    }
    // all sequence values of the millisecond are used: nothing until a later one
    assert_eq!(g.next_id_at(now), None);
    let later = g.next_id_at(now + 1).unwrap();
    assert_eq!(later, ((now + 1 - 1_704_067_200_000) << 22) | (4 << 17) | (3 << 12));
    assert!(later > first | 4095);
}
