use enr::NodeId;
use portal_storage::distance::{byte_vector_to_u64, distance_between, xor_two_values};
use portal_storage::storage::{PortalStorage, PortalStorageConfig, StoreOutcome};

const KEY: &str = "YlHPPvteGytjbPHbrMOVlK3Z90IcO4UR";
const VALUE: &str = "OGFWs179fWnqmjvHQFGHszXloc3Wzdb4";

fn engine(capacity_kb: u64, node_id: [u8; 32]) -> PortalStorage {
    let storage_config = PortalStorageConfig { storage_capacity_kb: capacity_kb, node_id };
    PortalStorage::new(&storage_config)
}

fn outcome_name(r: &StoreOutcome) -> String {
    match r {
        StoreOutcome::Rejected => "rejected".to_string(),
        StoreOutcome::Kept => "kept".to_string(),
        StoreOutcome::Evicted(k) => format!("evicted {}", k),
    }
}

#[test]
fn test_new() {
    let storage_config = PortalStorageConfig {
        storage_capacity_kb: 100,
        node_id: NodeId::random().raw(),
    };
    let storage = PortalStorage::new(&storage_config);
    assert_eq!(storage.get_current_radius(), u64::MAX);
    assert!(!storage.is_capacity_reached());
    assert!(storage.find_farthest().is_none());
}

#[test]
fn test_store() {
    let mut storage = engine(100, NodeId::random().raw());
    let key: String = KEY.to_string();
    let value: String = VALUE.to_string();
    let usage = PortalStorage::get_total_storage_usage_kb(0, (key.len() + value.len()) as u64);
    let r = storage.store(&key, usage);
    assert_eq!(outcome_name(&r), "kept");
    assert_eq!(storage.find_farthest(), Some(key));
}

#[test]
fn test_get_total_storage() {
    let mut storage = engine(100, NodeId::random().raw());
    let key: String = KEY.to_string();
    let value: String = VALUE.to_string();
    let kb = PortalStorage::get_total_storage_usage_kb(0, (key.len() + value.len()) as u64);
    storage.store(&key, kb);
    assert_eq!(kb, 0);
    assert_eq!(PortalStorage::get_total_storage_usage_kb(1500, 2600), 4);
    assert_eq!(PortalStorage::get_total_storage_usage_kb(999, 0), 0);
    assert_eq!(PortalStorage::get_total_storage_usage_kb(u64::MAX, u64::MAX), 36893488147419103);
    assert!(!storage.is_capacity_reached());
}

#[test]
fn test_distance_to_key() {
    let node_id = NodeId::random().raw();
    let storage = engine(100, node_id);
    let key: String = KEY.to_string();
    let distance = storage.distance_to_key(&key);
    let mut expected: u64 = 0;
    for i in 0..8 {
        expected = (expected << 8) | (key.as_bytes()[i] ^ node_id[i]) as u64;
    }
    assert_eq!(distance, expected);
}

#[test]
fn distance_is_deterministic_and_zero_to_self() {
    let node_id: [u8; 32] = *b"YlHPPvteGytjbPHbrMOVlK3Z90IcO4UR";
    let storage = engine(100, node_id);
    let key: String = "OGFWs179fWnqmjvHQFGHszXloc3Wzdb4".to_string();
    assert_eq!(storage.distance_to_key(&key), storage.distance_to_key(&key));
    assert_eq!(storage.distance_to_key(&KEY.to_string()), 0);
}

#[test]
fn distance_of_short_key_is_zero() {
    let storage = engine(100, [0xffu8; 32]);
    assert_eq!(storage.distance_to_key(&"abc".to_string()), 0);
    assert_eq!(storage.distance_to_key(&String::new()), 0);
}

#[test]
fn byte_vector_reads_big_endian_prefix() {
    assert_eq!(byte_vector_to_u64(&[1, 2, 3, 4, 5, 6, 7, 8, 9, 10]), 0x0102030405060708);
    assert_eq!(byte_vector_to_u64(&[0xff; 8]), u64::MAX);
    assert_eq!(byte_vector_to_u64(&[1, 2, 3, 4, 5, 6, 7]), 0);
}

#[test]
fn xor_stops_at_shorter_input() {
    assert_eq!(xor_two_values(&[0x0f, 0xf0, 0xaa], &[0xff, 0xff]), vec![0xf0, 0x0f]);
    assert_eq!(distance_between(&[0x80, 0, 0, 0, 0, 0, 0, 1], &[0u8; 32]), 0x8000000000000001);
}

#[test]
fn admits_everything_before_capacity() {
    let mut storage = engine(10, [0u8; 32]);
    assert!(storage.should_store(&"\u{7f}\u{7f}\u{7f}\u{7f}\u{7f}\u{7f}\u{7f}\u{7f}".to_string()));
    storage.store(&"abcdefgh".to_string(), 3);
    assert!(storage.should_store(&"zzzzzzzz".to_string()));
    assert!(storage.should_store(&"abcdefgh".to_string()));
}

#[test]
fn capacity_flag_flips_when_usage_exceeds() {
    let mut storage = engine(10, [0u8; 32]);
    assert_eq!(outcome_name(&storage.store(&"bbbbbbbb".to_string(), 10)), "kept");
    assert!(!storage.is_capacity_reached());
    assert_eq!(outcome_name(&storage.store(&"cccccccc".to_string(), 11)), "kept");
    assert!(storage.is_capacity_reached());
    assert_eq!(storage.get_current_radius(), u64::MAX);
}

// Three keys with values of 1100 bytes each against a 1 KB capacity. Usage
// passes the capacity on the second store, so the third evicts the farthest.
#[test]
fn third_store_evicts_the_farthest_of_three() {
    let mut storage = engine(1, [0u8; 32]);
    let k1 = "zzzzzzzz-first".to_string();
    let k2 = "mmmmmmmm-second".to_string();
    let k3 = "aaaaaaaa-third".to_string();
    let mut bytes: u64 = 0;
    bytes += 1100;
    let r1 = storage.store(&k1, PortalStorage::get_total_storage_usage_kb(0, bytes));
    assert_eq!(outcome_name(&r1), "kept");
    assert!(!storage.is_capacity_reached());
    bytes += 1100;
    let r2 = storage.store(&k2, PortalStorage::get_total_storage_usage_kb(0, bytes));
    assert_eq!(outcome_name(&r2), "kept");
    assert!(storage.is_capacity_reached());
    assert_eq!(storage.find_farthest(), Some(k1.clone()));
    let r3 = storage.store(&k3, 0);
    assert_eq!(outcome_name(&r3), format!("evicted {}", k1));
    assert_eq!(storage.get_current_radius(), storage.distance_to_key(&k2));
    assert_eq!(storage.get_current_radius(), 0x6d6d6d6d6d6d6d6d);
    assert_eq!(storage.find_farthest(), Some(k2.clone()));
    assert!(!storage.should_store(&k1));
    assert!(!storage.should_store(&k2));
    assert!(storage.should_store(&k3));
}

#[test]
fn radius_never_grows_and_bounds_held_keys() {
    let mut storage = engine(0, [0u8; 32]);
    let keys = ["pppppppp", "qqqqqqqq", "cccccccc", "bbbbbbbb", "dddddddd", "aaaaaaaa"];
    let mut radius = storage.get_current_radius();
    for k in keys.iter() {
        let key = k.to_string();
        storage.store(&key, 1);
        let now = storage.get_current_radius();
        assert!(now <= radius);
        radius = now;
    }
    assert_eq!(radius, storage.distance_to_key(&"aaaaaaaa".to_string()));
    assert_eq!(storage.find_farthest(), Some("aaaaaaaa".to_string()));
    let far = storage.find_farthest().unwrap();
    assert_eq!(storage.distance_to_key(&far), radius);
}

#[test]
fn key_at_radius_is_rejected() {
    let mut storage = engine(0, [0u8; 32]);
    storage.store(&"kkkkkkkk".to_string(), 1);
    storage.store(&"jjjjjjjj".to_string(), 1);
    let radius = storage.get_current_radius();
    assert_eq!(radius, storage.distance_to_key(&"jjjjjjjj".to_string()));
    assert!(!storage.should_store(&"jjjjjjjj".to_string()));
    let r = storage.store(&"jjjjjjjj".to_string(), 1);
    assert_eq!(outcome_name(&r), "rejected");
    assert_eq!(storage.get_current_radius(), radius);
}

#[test]
fn restoring_a_key_keeps_one_entry() {
    let mut storage = engine(100, [0u8; 32]);
    let key = KEY.to_string();
    storage.store(&key, 1);
    storage.store(&key, 1);
    storage.store(&"AAAAAAAA".to_string(), 200);
    assert!(storage.is_capacity_reached());
    assert_eq!(storage.find_farthest(), Some(key.clone()));
    let r = storage.store(&"BBBBBBBB".to_string(), 0);
    assert_eq!(outcome_name(&r), format!("evicted {}", key));
    assert_eq!(storage.find_farthest(), Some("BBBBBBBB".to_string()));
    assert!(!storage.should_store(&key));
}

#[test]
fn unbounded_capacity_keeps_radius_open() {
    let mut storage = engine(1_000_000, NodeId::random().raw());
    let key = KEY.to_string();
    let r = storage.store(&key, PortalStorage::get_total_storage_usage_kb(4096, 64));
    assert_eq!(outcome_name(&r), "kept");
    assert_eq!(storage.get_current_radius(), u64::MAX);
    assert_eq!(storage.find_farthest(), Some(key));
}

#[test]
fn storing_the_farthest_key_again_evicts_it() {
    let mut storage = engine(0, [0u8; 32]);
    let key = "zzzzzzzz".to_string();
    storage.store(&key, 1);
    assert!(storage.is_capacity_reached());
    let r = storage.store(&key, 1);
    assert_eq!(outcome_name(&r), format!("evicted {}", key));
    assert!(storage.find_farthest().is_none());
    assert_eq!(storage.get_current_radius(), u64::MAX);
    assert_eq!(outcome_name(&storage.store(&"yyyyyyyy".to_string(), 1)), "kept");
    assert_eq!(storage.find_farthest(), Some("yyyyyyyy".to_string()));
}
