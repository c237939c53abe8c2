use kvs::keydir::{key_side, same_key, Side};
use kvs::{KeyDir, LogPointer};

fn pointer(generation: u64, offset: u64, length: u64) -> LogPointer {
    LogPointer { generation, offset, length }
}

#[test]
fn a_new_directory_is_empty() {
    let dir = KeyDir::new();
    assert_eq!(dir.len(), 0);
    assert_eq!(dir.get("k"), None);
    assert!(!dir.contains_key("k"));
}

#[test]
fn insert_returns_the_pointer_that_was_there() {
    let mut dir = KeyDir::new();
    assert_eq!(dir.insert("k".to_string(), pointer(1, 0, 10)), None);
    assert_eq!(dir.insert("k".to_string(), pointer(1, 10, 12)), Some(pointer(1, 0, 10)));
    assert_eq!(dir.get("k"), Some(pointer(1, 10, 12)));
    assert_eq!(dir.len(), 1);
}

#[test]
fn remove_returns_the_pointer_and_hides_the_key() {
    let mut dir = KeyDir::new();
    dir.insert("a".to_string(), pointer(0, 0, 5));
    dir.insert("b".to_string(), pointer(0, 5, 6));
    assert_eq!(dir.remove("a"), Some(pointer(0, 0, 5)));
    assert_eq!(dir.remove("a"), None);
    assert_eq!(dir.get("a"), None);
    assert_eq!(dir.get("b"), Some(pointer(0, 5, 6)));
    assert_eq!(dir.len(), 1);
}

#[test]
fn keys_stand_in_the_order_of_their_bytes() {
    let mut dir = KeyDir::new();
    for (i, key) in ["b", "", "ab", "a", "é", "z", "B", "aa"].iter().enumerate() {
        dir.insert(key.to_string(), pointer(0, i as u64, 1));
    }
    let keys: Vec<String> = (0..dir.len()).map(|i| dir.key_at(i).clone()).collect();
    assert_eq!(keys, vec!["", "B", "a", "aa", "ab", "b", "z", "é"]);
    let mut sorted = keys.clone();
    sorted.sort();
    assert_eq!(keys, sorted);
    assert_eq!(dir.pointer_at(0), pointer(0, 1, 1));
    assert_eq!(dir.pointer_at(7), pointer(0, 4, 1));
}

#[test]
fn set_pointer_at_changes_one_pointer() {
    let mut dir = KeyDir::new();
    dir.insert("a".to_string(), pointer(0, 0, 5));
    dir.insert("b".to_string(), pointer(0, 5, 6));
    dir.set_pointer_at(1, pointer(9, 0, 6));
    assert_eq!(dir.get("a"), Some(pointer(0, 0, 5)));
    assert_eq!(dir.get("b"), Some(pointer(9, 0, 6)));
    assert_eq!(dir.key_at(1), "b");
}

#[test]
fn many_keys_are_found_again() {
    let mut dir = KeyDir::new();
    for i in 0..2000u64 {
        let key = format!("key{}", (i * 7919) % 2000);
        assert_eq!(dir.insert(key, pointer(0, i, 1)), None);
    }
    assert_eq!(dir.len(), 2000);
    for i in 0..2000u64 {
        let key = format!("key{}", (i * 7919) % 2000);
        assert_eq!(dir.get(&key), Some(pointer(0, i, 1)));
    }
    for i in 0..2000u64 {
        assert!(dir.remove(&format!("key{}", i)).is_some());
    }
    assert_eq!(dir.len(), 0);
}

#[test]
fn key_side_orders_like_str() {
    let keys = ["", "a", "ab", "b", "B", "é", "z", "aa", "\u{10000}", "\u{ffff}"];
    for a in keys.iter() {
        for b in keys.iter() {
            let expected = if a < b {
                Side::Before
            } else if a == b {
                Side::Same
            } else {
                Side::After
            };
            assert_eq!(key_side(a, b), expected, "{:?} {:?}", a, b);
            assert_eq!(same_key(a, b), a == b);
        }
    }
}

#[test]
fn a_pointer_spans_from_start_to_end() {
    assert_eq!(LogPointer::spanning(3, 10, 25), pointer(3, 10, 15));
    assert_eq!(LogPointer::spanning(0, 7, 7), pointer(0, 7, 0));
}
