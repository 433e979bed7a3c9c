use linkedhashmap::LinkedHashMap;
use std::collections::hash_map::RandomState;

#[test]
fn test_insert_get_len() {
    let mut map: LinkedHashMap<u32, &str> = LinkedHashMap::new();
    assert_eq!(0, map.len());
    assert_eq!(None, map.insert(1, "one"));
    assert_eq!(None, map.insert(2, "two"));
    assert_eq!(2, map.len());
    assert_eq!(Some(&"one"), map.get(&1));
    assert_eq!(Some(&"two"), map.get(&2));
    assert_eq!(None, map.get(&3));
    assert_eq!(Some(&"one"), map.get_mut(&1));
    assert_eq!(None, map.get_mut(&3));
}

#[test]
fn test_fifo_order() {
    // Pushing v1..vn then popping from the front returns v1..vn in order.
    let mut map: LinkedHashMap<u32, u32> = LinkedHashMap::new();
    for i in 0..10 {
        map.insert(i, i * i);
    }
    for i in 0..10 {
        assert_eq!(Some((i, i * i)), map.pop_front());
    }
    assert_eq!(None, map.pop_front());
}

#[test]
fn test_lifo_from_tail_order() {
    // Pushing v1..vn then popping from the tail returns vn..v1.
    let mut map: LinkedHashMap<u32, u32> = LinkedHashMap::new();
    for i in 0..10 {
        map.insert(i, i + 100);
    }
    for i in (0..10).rev() {
        assert_eq!(Some((i, i + 100)), map.pop_last());
    }
    assert_eq!(None, map.pop_last());
}

#[test]
fn test_remove_scenario() {
    // Push 6, 7, 8; removing the middle entry returns it once and only once;
    // the remaining entries pop in order.
    let mut map: LinkedHashMap<u32, u32> = LinkedHashMap::new();
    map.insert(6, 6);
    map.insert(7, 7);
    map.insert(8, 8);
    assert_eq!(Some(7), map.remove(&7));
    assert_eq!(None, map.remove(&7));
    assert_eq!(Some((6, 6)), map.pop_front());
    assert_eq!(Some((8, 8)), map.pop_front());
    assert_eq!(None, map.pop_front());
}

#[test]
fn test_touch_scenario() {
    // Push 11, 12, 13; touching 12 then 11 reorders to 13, 12, 11.
    let mut map: LinkedHashMap<u32, u32> = LinkedHashMap::new();
    map.insert(11, 11);
    map.insert(12, 12);
    map.insert(13, 13);
    assert_eq!(Some(&mut 12), map.touch(&12));
    assert_eq!(Some(&mut 11), map.touch(&11));
    assert_eq!(Some((13, 13)), map.pop_front());
    assert_eq!(Some((12, 12)), map.pop_front());
    assert_eq!(Some((11, 11)), map.pop_front());
    assert_eq!(None, map.pop_front());
}

#[test]
fn test_touch_missing_key() {
    let mut map: LinkedHashMap<u32, u32> = LinkedHashMap::new();
    map.insert(1, 10);
    assert_eq!(None, map.touch(&2));
    assert_eq!(Some((1, 10)), map.pop_front());
}

#[test]
fn test_touch_sole_entry_is_noop() {
    let mut map: LinkedHashMap<u32, u32> = LinkedHashMap::new();
    map.insert(5, 50);
    assert_eq!(Some(&mut 50), map.touch(&5));
    assert_eq!(1, map.len());
    assert_eq!(Some(&50), map.get(&5));
    assert_eq!(Some((5, 50)), map.pop_last());
    assert_eq!(None, map.pop_last());
}

#[test]
fn test_touch_updates_value_in_place() {
    let mut map: LinkedHashMap<u32, u32> = LinkedHashMap::new();
    map.insert(1, 10);
    map.insert(2, 20);
    if let Some(v) = map.touch(&1) {
        *v = 11;
    } else {
        panic!("key unexpectedly missing");
    }
    assert_eq!(Some((2, 20)), map.pop_front());
    assert_eq!(Some((1, 11)), map.pop_front());
}

#[test]
fn test_duplicate_insert_moves_to_tail() {
    // Replacing a key returns the old value and places the new entry at the
    // tail, not at the old entry's position.
    let mut map: LinkedHashMap<&str, u32> = LinkedHashMap::new();
    assert_eq!(None, map.insert("a", 1));
    assert_eq!(Some(1), map.insert("a", 2));
    assert_eq!(Some(("a", 2)), map.pop_front());
    assert_eq!(None, map.pop_front());
}

#[test]
fn test_duplicate_insert_among_others() {
    let mut map: LinkedHashMap<u32, u32> = LinkedHashMap::new();
    map.insert(1, 10);
    map.insert(2, 20);
    map.insert(3, 30);
    assert_eq!(Some(10), map.insert(1, 15));
    assert_eq!(3, map.len());
    assert_eq!(Some((2, 20)), map.pop_front());
    assert_eq!(Some((3, 30)), map.pop_front());
    assert_eq!(Some((1, 15)), map.pop_front());
}

#[test]
fn test_clear_empties_everything() {
    let mut map: LinkedHashMap<u32, u32> = LinkedHashMap::new();
    for i in 0..8 {
        map.insert(i, i);
    }
    map.clear();
    assert_eq!(0, map.len());
    assert_eq!(None, map.pop_front());
    assert_eq!(None, map.pop_last());
    assert_eq!(None, map.get(&3));
    // The structure stays usable after a clear.
    map.insert(9, 90);
    assert_eq!(Some((9, 90)), map.pop_last());
}

#[test]
fn test_with_capacity_and_reserve_and_shrink() {
    let mut map: LinkedHashMap<u32, u32> = LinkedHashMap::with_capacity(16);
    map.insert(1, 1);
    map.reserve(100);
    map.insert(2, 4);
    map.shrink_to_fit();
    // Capacity hints never change the entries or their order.
    assert_eq!(2, map.len());
    assert_eq!(Some(&1), map.get(&1));
    assert_eq!(Some((1, 1)), map.pop_front());
    assert_eq!(Some((2, 4)), map.pop_front());
}

#[test]
fn test_with_hasher() {
    let mut map: LinkedHashMap<u32, u32, RandomState> =
        LinkedHashMap::with_hasher(RandomState::new());
    map.insert(1, 2);
    map.insert(3, 4);
    assert_eq!(Some(&2), map.get(&1));
    assert_eq!(Some((1, 2)), map.pop_front());
    assert_eq!(Some((3, 4)), map.pop_last());
}

#[test]
fn test_with_capacity_and_hasher() {
    let mut map: LinkedHashMap<u32, u32, RandomState> =
        LinkedHashMap::with_capacity_and_hasher(8, RandomState::new());
    map.insert(7, 70);
    assert_eq!(1, map.len());
    assert_eq!(Some((7, 70)), map.pop_last());
    assert_eq!(None, map.pop_last());
}

#[test]
fn test_string_keys() {
    let mut map: LinkedHashMap<String, u32> = LinkedHashMap::new();
    map.insert(String::from("alpha"), 1);
    map.insert(String::from("beta"), 2);
    assert_eq!(Some(&1), map.get(&String::from("alpha")));
    assert_eq!(Some(2), map.remove(&String::from("beta")));
    assert_eq!(None, map.remove(&String::from("beta")));
    assert_eq!(Some((String::from("alpha"), 1)), map.pop_front());
}

#[test]
fn test_lru_eviction_pattern() {
    // The intended use: the caller enforces a capacity of 3 by popping the
    // least recently used entry (the head) after each insertion.
    let mut map: LinkedHashMap<u32, u32> = LinkedHashMap::new();
    let cap = 3;
    for i in 0..6 {
        map.insert(i, i);
        if map.len() > cap {
            map.pop_front();
        }
    }
    map.touch(&3);
    map.insert(6, 6);
    if map.len() > cap {
        map.pop_front();
    }
    // 4 was the least recently used: 3 was touched after it.
    assert_eq!(None, map.get(&4));
    assert_eq!(Some(&3), map.get(&3));
    assert_eq!(Some((5, 5)), map.pop_front());
    assert_eq!(Some((3, 3)), map.pop_front());
    assert_eq!(Some((6, 6)), map.pop_front());
}
