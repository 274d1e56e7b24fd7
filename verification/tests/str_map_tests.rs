use abi_reflect::str_map::{place, Placement, StrMap};

fn keys(map: &StrMap<u32>) -> Vec<String> {
    (0..map.len()).map(|i| map.key_at(i).to_string()).collect()
}

fn filled(entries: &[(&str, u32)]) -> StrMap<u32> {
    let mut map = StrMap::new();
    for (key, value) in entries {
        map.insert(key.to_string(), *value);
    }
    map
}

#[test]
fn keys_are_kept_in_ascending_order() {
    let map = filled(&[("b", 1), ("a.b", 2), ("", 3), ("a", 4), ("ä", 5), ("Z", 6)]);
    assert_eq!(keys(&map), ["", "Z", "a", "a.b", "b", "ä"]);
    assert_eq!(*map.value_at(2), 4);
    assert_eq!(*map.value_at(5), 5);
}

#[test]
fn inserting_replaces_a_value() {
    let map = filled(&[("a", 1), ("b", 2), ("a", 3)]);
    assert_eq!(map.len(), 2);
    assert_eq!(map.get("a"), Some(&3));
    assert_eq!(map.get("b"), Some(&2));
    assert_eq!(map.get("c"), None);
}

#[test]
fn removing_gives_the_value_back() {
    let mut map = filled(&[("a", 1), ("b", 2), ("c", 3)]);
    assert_eq!(map.remove("b"), Some(2));
    assert_eq!(map.remove("b"), None);
    assert_eq!(keys(&map), ["a", "c"]);
    assert_eq!(map.get("c"), Some(&3));
}

#[test]
fn a_clone_holds_the_same_entries() {
    let map = filled(&[("a", 1), ("b", 2)]);
    let mut copy = map.clone();
    copy.insert("c".to_string(), 3);
    assert_eq!(keys(&map), ["a", "b"]);
    assert_eq!(keys(&copy), ["a", "b", "c"]);
    assert_eq!(copy.get("b"), Some(&2));
}

#[test]
fn texts_are_placed_by_code_point() {
    assert_eq!(place("a", "b"), Placement::Before);
    assert_eq!(place("a", "a"), Placement::Same);
    assert_eq!(place("ab", "a"), Placement::After);
    assert_eq!(place("", "a"), Placement::Before);
    for (a, b) in [("z", "ä"), ("\u{FFFD}", "\u{10000}"), ("a.b", "aa")] {
        assert_eq!(place(a, b), Placement::Before);
        assert_eq!(place(b, a), Placement::After);
        assert!(a < b);
    }
}
