use std::collections::BTreeMap;

use crap_os::kernel_hashmap::{
    fnv1a_continue, fnv1a_hash_bytes, next_power_of_two, Entry, KernelHash, KernelHashMap,
};
use crap_os::virtual_fs::types::OpenFileKey;

#[test]
fn fnv_hashes() {
    assert_eq!(fnv1a_hash_bytes(b""), 0xcbf2_9ce4_8422_2325);
    assert_eq!(fnv1a_hash_bytes(b"a"), 0xaf63_dc4c_8601_ec8c);
    assert_eq!(fnv1a_hash_bytes(b"foobar"), 0x8594_4171_f739_67e8);
    assert_eq!(fnv1a_continue(fnv1a_hash_bytes(b"foo"), b"bar"), fnv1a_hash_bytes(b"foobar"));
}

#[test]
fn keys_hash_their_bytes() {
    assert_eq!(0x0403_0201u32.kernel_hash(), fnv1a_hash_bytes(&[1, 2, 3, 4]));
    assert_eq!(0x0807_0605_0403_0201u64.kernel_hash(), fnv1a_hash_bytes(&[1, 2, 3, 4, 5, 6, 7, 8]));
    assert_eq!("ext2".kernel_hash(), fnv1a_hash_bytes(b"ext2"));
    let key = OpenFileKey::new(1, 2);
    assert_eq!(key.kernel_hash(), fnv1a_hash_bytes(&[1, 0, 0, 0, 0, 0, 0, 0, 2, 0, 0, 0, 0, 0, 0, 0]));
    assert_ne!(key.kernel_hash(), OpenFileKey::new(2, 1).kernel_hash());
    assert!("ram".same_key(&"ram") && !"ram".same_key(&"rom"));
}

#[test]
fn powers_of_two() {
    assert_eq!(next_power_of_two(0), 1);
    assert_eq!(next_power_of_two(1), 1);
    assert_eq!(next_power_of_two(5), 8);
    assert_eq!(next_power_of_two(64), 64);
}

#[test]
fn insert_get_and_remove() {
    let mut map: KernelHashMap<u64, &str> = KernelHashMap::new();
    assert!(map.is_empty());
    assert_eq!(map.get(&1), None);
    assert_eq!(map.remove(&1), None);
    assert_eq!(map.insert(1, "one"), None);
    assert_eq!(map.insert(1, "uno"), Some("one"));
    assert_eq!(map.len(), 1);
    assert!(map.contains_key(&1) && !map.contains_key(&2));
    *map.get_mut(&1).unwrap() = "ein";
    assert_eq!(map.get(&1), Some(&"ein"));
    assert_eq!(map.get_mut(&2), None);
    assert_eq!(map.remove(&1), Some("ein"));
    assert_eq!(map.len(), 0);
    assert_eq!(map.get(&1), None);
    assert!(map.has_room());
}

#[test]
fn agrees_with_an_ordered_map() {
    let mut map: KernelHashMap<u32, u32> = KernelHashMap::default();
    let mut model: BTreeMap<u32, u32> = BTreeMap::new();
    let mut x: u32 = 12345;
    for step in 0..4000u32 {
        x = x.wrapping_mul(1664525).wrapping_add(1013904223);
        let key = (x >> 16) % 97;
        if step % 3 == 0 {
            assert_eq!(map.remove(&key), model.remove(&key));
        } else {
            assert_eq!(map.insert(key, step), model.insert(key, step));
        }
        assert_eq!(map.len(), model.len());
        if step % 500 == 0 {
            map.shrink();
        }
    }
    let mut pairs: Vec<(u32, u32)> = map.iter().into_iter().map(|(k, v)| (*k, *v)).collect();
    pairs.sort();
    assert_eq!(pairs, model.into_iter().collect::<Vec<_>>());
    let mut keys: Vec<u32> = map.keys().into_iter().copied().collect();
    keys.sort();
    assert_eq!(keys, pairs.iter().map(|p| p.0).collect::<Vec<_>>());
}

#[test]
fn retained_entries_stay() {
    let mut map: KernelHashMap<u64, u64> = KernelHashMap::new();
    for i in 0..50 {
        map.insert(i, i * i);
    }
    map.retain(|k, v| {
        *v += 1;
        k % 5 == 0
    });
    assert_eq!(map.len(), 10);
    assert_eq!(map.get(&10), Some(&101));
    assert_eq!(map.get(&11), None);
    map.shrink();
    assert_eq!(map.get(&45), Some(&2026));
    map.retain(|_, _| false);
    map.shrink();
    assert!(map.is_empty());
    assert_eq!(map.insert(3, 4), None);
    assert_eq!(map.get(&3), Some(&4));
}

#[test]
fn entries() {
    let mut map: KernelHashMap<&'static str, u32> = KernelHashMap::new();
    *map.entry("a").or_insert_with(|| 1) += 10;
    *map.entry("a").or_insert_with(|| 100) += 10;
    assert_eq!(map.get(&"a"), Some(&21));
    match map.entry("a") {
        Entry::Occupied(e) => *e.into_mut() = 5,
        Entry::Vacant(_) => panic!(),
    }
    match map.entry("b") {
        Entry::Occupied(_) => panic!(),
        Entry::Vacant(e) => assert_eq!(*e.insert(6), 6),
    }
    assert_eq!((map.get(&"a"), map.get(&"b"), map.len()), (Some(&5), Some(&6), 2));
}
