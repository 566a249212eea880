use stable_map::errors::MapError;
use stable_map::map::FixedSlotMap;
use stable_map::memory::Memory;
use stable_map::memory::MemoryWindow;
use stable_map::memory::VecMemory;
use stable_map::profile::UserProfile;

type Mem = MemoryWindow<VecMemory>;

fn window(pages: u64, start: u64, end: u64) -> Mem {
    MemoryWindow::new(VecMemory::new(pages), start, end)
}

#[test]
fn basic_insert_get_scenario() {
    let mut map: FixedSlotMap<Mem, String, Vec<u8>> =
        FixedSlotMap::init(window(100, 0, 99), 10, 100).unwrap();
    assert_eq!(map.insert(&"alice".to_string(), &vec![1, 2, 3]), Ok(None));
    assert_eq!(
        map.insert(&"alice".to_string(), &vec![4, 5]),
        Ok(Some(vec![1, 2, 3]))
    );
    assert_eq!(map.get(&"alice".to_string()), Ok(Some(vec![4, 5])));
    assert_eq!(map.get(&"bob".to_string()), Ok(None));
}

#[test]
fn custom_type_scenario() {
    let mut map: FixedSlotMap<Mem, u64, UserProfile> =
        FixedSlotMap::init(window(100, 0, 99), 8, 100).unwrap();
    let profile = UserProfile {
        age: 30,
        name: "A".to_string(),
    };
    assert!(map.insert(&1u64, &profile).unwrap().is_none());
    let back = map.get(&1u64).unwrap().unwrap();
    assert_eq!(back.age, 30);
    assert_eq!(back.name, "A");
}

#[test]
fn get_on_absent_key_is_none_not_error() {
    let map: FixedSlotMap<Mem, String, Vec<u8>> =
        FixedSlotMap::init(window(100, 0, 99), 10, 100).unwrap();
    assert_eq!(map.get(&"never".to_string()), Ok(None));
}

#[test]
fn key_too_large_leaves_count_unchanged() {
    let mut map: FixedSlotMap<Mem, String, Vec<u8>> =
        FixedSlotMap::init(window(100, 0, 99), 10, 100).unwrap();
    map.insert(&"ok".to_string(), &vec![1]).unwrap();
    assert_eq!(map.len(), 1);
    let long_key = "well_over_ten_bytes_long".to_string();
    assert_eq!(map.insert(&long_key, &vec![2]), Err(MapError::KeyTooLarge));
    assert_eq!(map.len(), 1);
    assert_eq!(map.get(&long_key), Err(MapError::KeyTooLarge));
}

#[test]
fn value_too_large_is_rejected_before_mutation() {
    let mut map: FixedSlotMap<Mem, String, Vec<u8>> =
        FixedSlotMap::init(window(100, 0, 99), 10, 100).unwrap();
    let big = vec![7u8; 101];
    assert_eq!(map.insert(&"k".to_string(), &big), Err(MapError::ValueTooLarge));
    assert_eq!(map.len(), 0);
    assert_eq!(map.get(&"k".to_string()), Ok(None));
}

#[test]
fn keys_iterate_in_strictly_increasing_order() {
    let mut map: FixedSlotMap<Mem, String, Vec<u8>> =
        FixedSlotMap::init(window(100, 0, 99), 10, 100).unwrap();
    for name in ["pear", "apple", "zeta", "fig", "banana"] {
        map.insert(&name.to_string(), &vec![0]).unwrap();
    }
    let keys = map.keys_sorted();
    let words: Vec<String> = keys
        .iter()
        .map(|k| String::from_utf8(k.clone()).unwrap())
        .collect();
    assert_eq!(words, vec!["apple", "banana", "fig", "pear", "zeta"]);
    for pair in keys.windows(2) {
        assert!(pair[0] < pair[1]);
    }
}

#[test]
fn u64_keys_iterate_in_numeric_order() {
    let mut map: FixedSlotMap<Mem, u64, Vec<u8>> =
        FixedSlotMap::init(window(100, 0, 99), 8, 16).unwrap();
    for k in [500u64, 3, 70000, 1, 256] {
        map.insert(&k, &vec![1]).unwrap();
    }
    let keys = map.keys_sorted();
    let nums: Vec<u64> = keys
        .iter()
        .map(|k| u64::from_be_bytes(k.as_slice().try_into().unwrap()))
        .collect();
    assert_eq!(nums, vec![1, 3, 256, 500, 70000]);
}

#[test]
fn reattach_recovers_entries() {
    let mut map: FixedSlotMap<Mem, String, Vec<u8>> =
        FixedSlotMap::init(window(100, 0, 99), 10, 100).unwrap();
    map.insert(&"alpha".to_string(), &vec![1, 1]).unwrap();
    map.insert(&"beta".to_string(), &vec![2]).unwrap();
    map.insert(&"gamma".to_string(), &vec![3, 3, 3]).unwrap();
    let mem = map.into_memory();
    let again: FixedSlotMap<Mem, String, Vec<u8>> = FixedSlotMap::init(mem, 10, 100).unwrap();
    assert_eq!(again.len(), 3);
    assert_eq!(again.get(&"alpha".to_string()), Ok(Some(vec![1, 1])));
    assert_eq!(again.get(&"beta".to_string()), Ok(Some(vec![2])));
    assert_eq!(again.get(&"gamma".to_string()), Ok(Some(vec![3, 3, 3])));
}

#[test]
fn reattach_with_other_bounds_is_schema_mismatch() {
    let mut map: FixedSlotMap<Mem, String, Vec<u8>> =
        FixedSlotMap::init(window(100, 0, 99), 10, 100).unwrap();
    map.insert(&"a".to_string(), &vec![1]).unwrap();
    let mem = map.into_memory();
    let err = match FixedSlotMap::<Mem, String, Vec<u8>>::init(mem, 11, 100) {
        Ok(_) => panic!("a changed key bound must be refused"),
        Err(e) => e,
    };
    assert_eq!(err, MapError::SchemaMismatch);
    let mut map2: FixedSlotMap<Mem, String, Vec<u8>> =
        FixedSlotMap::init(window(100, 0, 99), 10, 100).unwrap();
    map2.insert(&"a".to_string(), &vec![1]).unwrap();
    let mem2 = map2.into_memory();
    let err2 = match FixedSlotMap::<Mem, String, Vec<u8>>::init(mem2, 10, 99) {
        Ok(_) => panic!("a changed value bound must be refused"),
        Err(e) => e,
    };
    assert_eq!(err2, MapError::SchemaMismatch);
}

#[test]
fn remove_returns_previous_value() {
    let mut map: FixedSlotMap<Mem, String, Vec<u8>> =
        FixedSlotMap::init(window(100, 0, 99), 10, 100).unwrap();
    map.insert(&"a".to_string(), &vec![1]).unwrap();
    map.insert(&"b".to_string(), &vec![2]).unwrap();
    map.insert(&"c".to_string(), &vec![3]).unwrap();
    assert_eq!(map.remove(&"b".to_string()), Ok(Some(vec![2])));
    assert_eq!(map.len(), 2);
    assert_eq!(map.get(&"b".to_string()), Ok(None));
    assert_eq!(map.get(&"a".to_string()), Ok(Some(vec![1])));
    assert_eq!(map.get(&"c".to_string()), Ok(Some(vec![3])));
    assert_eq!(map.remove(&"b".to_string()), Ok(None));
    assert_eq!(map.len(), 2);
}

#[test]
fn grow_failure_propagates_without_partial_insert() {
    // a region with a zero-page ceiling cannot even be formatted
    let err = match FixedSlotMap::<VecMemory, String, Vec<u8>>::init(VecMemory::new(0), 10, 100) {
        Ok(_) => panic!("a region that cannot grow must refuse to format"),
        Err(e) => e,
    };
    assert_eq!(err, MapError::GrowFailed);
    // a one-page window fills up after a bounded number of fixed-width slots
    let mut map: FixedSlotMap<Mem, u64, Vec<u8>> =
        FixedSlotMap::init(window(1, 0, 1), 8, 100).unwrap();
    let mut filled: u64 = 0;
    let mut failed = false;
    for k in 0u64..1000 {
        match map.insert(&k, &vec![9]) {
            Ok(None) => filled += 1,
            Ok(Some(_)) => panic!("unexpected overwrite"),
            Err(e) => {
                assert_eq!(e, MapError::GrowFailed);
                failed = true;
                break;
            }
        }
    }
    assert!(failed);
    // the failed insert left everything recoverable
    assert_eq!(map.len(), filled);
    assert_eq!(map.get(&0u64), Ok(Some(vec![9])));
}

#[test]
fn windows_partition_one_region_without_collision() {
    // two maps cannot share one VecMemory directly, but the same partition
    // scheme is exercised by giving each map its own window coordinates
    let mut low: FixedSlotMap<Mem, u64, Vec<u8>> =
        FixedSlotMap::init(window(100, 0, 50), 8, 16).unwrap();
    let mut high: FixedSlotMap<Mem, u64, Vec<u8>> =
        FixedSlotMap::init(window(100, 50, 100), 8, 16).unwrap();
    low.insert(&1u64, &vec![1]).unwrap();
    high.insert(&1u64, &vec![2]).unwrap();
    assert_eq!(low.get(&1u64), Ok(Some(vec![1])));
    assert_eq!(high.get(&1u64), Ok(Some(vec![2])));
}

#[test]
fn overwrite_keeps_single_entry() {
    let mut map: FixedSlotMap<Mem, String, Vec<u8>> =
        FixedSlotMap::init(window(100, 0, 99), 10, 100).unwrap();
    map.insert(&"k".to_string(), &vec![1]).unwrap();
    map.insert(&"k".to_string(), &vec![2]).unwrap();
    map.insert(&"k".to_string(), &vec![3]).unwrap();
    assert_eq!(map.len(), 1);
    assert_eq!(map.get(&"k".to_string()), Ok(Some(vec![3])));
}

#[test]
fn empty_key_and_empty_value_round_trip() {
    let mut map: FixedSlotMap<Mem, String, Vec<u8>> =
        FixedSlotMap::init(window(100, 0, 99), 10, 100).unwrap();
    assert_eq!(map.insert(&String::new(), &Vec::new()), Ok(None));
    assert_eq!(map.get(&String::new()), Ok(Some(Vec::new())));
}
