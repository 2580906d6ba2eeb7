use keccak_map::hashing::Keccak256Builder;
use keccak_map::reduce::ByteOrder;
use keccak_map::table::AssocMap;

fn key(s: &str) -> Vec<u8> {
    s.as_bytes().to_vec()
}

#[test]
fn insert_and_get() {
    let mut map: AssocMap<Keccak256Builder, String> =
        AssocMap::new(Keccak256Builder, 16, ByteOrder::Big);
    assert_eq!(map.len(), 0);
    assert_eq!(map.insert(key("hello?"), "Hello!".to_string()), None);
    assert_eq!(map.insert(key("world"), "World!".to_string()), None);
    assert_eq!(map.len(), 2);
    assert_eq!(map.get(&key("hello?")), Some(&"Hello!".to_string()));
    assert_eq!(map.get(&key("world")), Some(&"World!".to_string()));
    assert_eq!(map.get(&key("missing")), None);
}

#[test]
fn insert_replaces_and_returns_previous() {
    let mut map: AssocMap<Keccak256Builder, u32> =
        AssocMap::new(Keccak256Builder, 4, ByteOrder::Little);
    assert_eq!(map.insert(key("a"), 1), None);
    assert_eq!(map.insert(key("a"), 2), Some(1));
    assert_eq!(map.len(), 1);
    assert_eq!(map.get(&key("a")), Some(&2));
}

#[test]
fn collision_correctness_single_bucket() {
    // With one bucket every key collides; entries are told apart by true
    // key equality alone.
    let mut map: AssocMap<Keccak256Builder, u32> =
        AssocMap::new(Keccak256Builder, 1, ByteOrder::Big);
    assert_eq!(map.insert(key("first"), 10), None);
    assert_eq!(map.insert(key("second"), 20), None);
    assert_eq!(map.get(&key("first")), Some(&10));
    assert_eq!(map.get(&key("second")), Some(&20));
}

#[test]
fn remove_returns_value_and_leaves_rest() {
    let mut map: AssocMap<Keccak256Builder, u32> =
        AssocMap::new(Keccak256Builder, 1, ByteOrder::Big);
    map.insert(key("a"), 1);
    map.insert(key("b"), 2);
    map.insert(key("c"), 3);
    assert_eq!(map.remove(&key("b")), Some(2));
    assert_eq!(map.len(), 2);
    assert_eq!(map.get(&key("b")), None);
    assert_eq!(map.get(&key("a")), Some(&1));
    assert_eq!(map.get(&key("c")), Some(&3));
    assert_eq!(map.remove(&key("b")), None);
}

#[test]
fn resize_preserves_all_entries() {
    // Start from a single bucket and insert enough keys to force several
    // doublings; every key must still be retrievable afterwards.
    let mut map: AssocMap<Keccak256Builder, usize> =
        AssocMap::new(Keccak256Builder, 1, ByteOrder::Big);
    let n = 64;
    for i in 0..n {
        let k = key(&format!("key-{}", i));
        assert_eq!(map.insert(k, i), None);
    }
    assert_eq!(map.len(), n);
    assert!(map.bucket_count() > 1);
    for i in 0..n {
        let k = key(&format!("key-{}", i));
        assert_eq!(map.get(&k), Some(&i));
    }
    // Removing keys inserted before the growth still works.
    for i in 0..8 {
        let k = key(&format!("key-{}", i));
        assert_eq!(map.remove(&k), Some(i));
        assert_eq!(map.get(&k), None);
    }
    assert_eq!(map.len(), n - 8);
}

#[test]
fn byte_orders_give_independent_containers() {
    // The byte order is fixed at construction, so each container is
    // internally consistent whichever order it uses.
    let mut little: AssocMap<Keccak256Builder, u8> =
        AssocMap::new(Keccak256Builder, 8, ByteOrder::Little);
    let mut big: AssocMap<Keccak256Builder, u8> =
        AssocMap::new(Keccak256Builder, 8, ByteOrder::Big);
    for (i, name) in ["one", "two", "three", "four"].iter().enumerate() {
        little.insert(key(name), i as u8);
        big.insert(key(name), i as u8);
    }
    for (i, name) in ["one", "two", "three", "four"].iter().enumerate() {
        assert_eq!(little.get(&key(name)), Some(&(i as u8)));
        assert_eq!(big.get(&key(name)), Some(&(i as u8)));
    }
}

#[test]
fn keys_walk_every_entry() {
    let mut map: AssocMap<Keccak256Builder, u32> =
        AssocMap::new(Keccak256Builder, 2, ByteOrder::Big);
    map.insert(key("x"), 1);
    map.insert(key("y"), 2);
    map.insert(key("z"), 3);
    map.remove(&key("y"));
    let mut ks = map.keys();
    assert_eq!(ks.len(), 2);
    ks.sort();
    assert_eq!(ks, vec![key("x"), key("z")]);
}

#[test]
fn empty_key_and_empty_value() {
    let mut map: AssocMap<Keccak256Builder, Vec<u8>> =
        AssocMap::new(Keccak256Builder, 2, ByteOrder::Little);
    assert_eq!(map.insert(Vec::new(), Vec::new()), None);
    assert_eq!(map.get(&Vec::new()), Some(&Vec::new()));
    assert_eq!(map.remove(&Vec::new()), Some(Vec::new()));
    assert_eq!(map.len(), 0);
}
