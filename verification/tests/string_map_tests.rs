use glide_core::string_map::bucket;
use glide_core::string_map::StringMap;

fn key(text: &str) -> String {
    text.to_string()
}

#[test]
fn the_bucket_is_computed_from_the_bytes() {
    assert_eq!(bucket(""), 0);
    assert_eq!(bucket("a"), 97);
    assert_eq!(bucket("ab"), 97 * 31 + 98);
    assert_eq!(bucket("abc"), (97 * 31 + 98) * 31 + 99);
    assert_eq!(bucket("\u{e9}"), 0xc3 * 31 + 0xa9);
    let long = "z".repeat(100);
    let mut expected: u64 = 0;
    for byte in long.bytes() {
        expected = expected.wrapping_mul(31).wrapping_add(byte as u64);
    }
    assert_eq!(bucket(&long), expected);
}

#[test]
fn entries_are_found_under_their_keys() {
    let mut map: StringMap<u32> = StringMap::new();
    assert!(!map.contains_key(&key("a")));
    assert_eq!(map.insert(key("a"), 1), None);
    assert_eq!(map.insert(key("b"), 2), None);
    assert_eq!(map.insert(key("a"), 3), Some(1));
    assert_eq!(map.get(&key("a")), Some(&3));
    assert_eq!(map.get(&key("b")), Some(&2));
    assert_eq!(map.get(&key("c")), None);
    assert_eq!(map.remove(&key("a")), Some(3));
    assert_eq!(map.remove(&key("a")), None);
    assert_eq!(map.get(&key("a")), None);
    assert_eq!(map.get(&key("b")), Some(&2));
}

#[test]
fn keys_that_share_a_bucket_stay_apart() {
    // 'A','a' and 'B','B' give the same number: 65 * 31 + 97 == 66 * 31 + 66.
    assert_eq!(bucket("Aa"), bucket("BB"));
    let mut map: StringMap<&str> = StringMap::new();
    map.insert(key("Aa"), "first");
    map.insert(key("BB"), "second");
    assert_eq!(map.get(&key("Aa")), Some(&"first"));
    assert_eq!(map.get(&key("BB")), Some(&"second"));
    assert_eq!(map.remove(&key("Aa")), Some("first"));
    assert_eq!(map.get(&key("Aa")), None);
    assert_eq!(map.get(&key("BB")), Some(&"second"));
    assert_eq!(map.remove(&key("BB")), Some("second"));
    assert!(!map.contains_key(&key("BB")));
}

#[test]
fn many_entries() {
    let mut map: StringMap<usize> = StringMap::new();
    for n in 0..500 {
        map.insert(format!("key-{}", n), n);
    }
    for n in 0..500 {
        assert_eq!(map.get(&format!("key-{}", n)), Some(&n));
    }
    for n in (0..500).step_by(2) {
        assert_eq!(map.remove(&format!("key-{}", n)), Some(n));
    }
    for n in 0..500 {
        assert_eq!(map.contains_key(&format!("key-{}", n)), n % 2 == 1);
    }
}
