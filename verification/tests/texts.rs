//! Texts and maps of texts.
use replayfs::text::{decimal, is_blank, same_text, signed_decimal};
use replayfs::text_map::TextMap;

#[test]
fn numbers_in_decimal() {
    for n in [0u64, 1, 9, 10, 99, 100, 4711, u64::MAX] {
        assert_eq!(decimal(n), n.to_string());
    }
    for n in [0i32, 7, -7, i32::MAX, i32::MIN] {
        assert_eq!(signed_decimal(n), n.to_string());
    }
}

#[test]
fn blank_texts() {
    assert!(is_blank(""));
    assert!(is_blank(" \t\u{85}\u{2028}\u{3000}"));
    assert!(!is_blank(" x "));
    assert!(!is_blank("\u{200b}"));
}

#[test]
fn equal_texts() {
    assert!(same_text("ab", "ab"));
    assert!(!same_text("ab", "abc"));
    assert!(!same_text("a", "A"));
}

#[test]
fn maps_keep_their_keys_in_order() {
    let mut map: TextMap<u32> = TextMap::new();
    assert!(map.is_empty());
    let keys = ["b", "a/b", "\u{e9}", "a", "B", "", "a.b", "\u{10000}", "\u{ffff}"];
    for (i, key) in keys.iter().enumerate() {
        map.insert(key.to_string(), i as u32);
    }
    let mut sorted: Vec<String> = keys.iter().map(|k| k.to_string()).collect();
    sorted.sort();
    let walked: Vec<String> = (0..map.len()).map(|i| map.key(i).clone()).collect();
    assert_eq!(walked, sorted);
    for (i, key) in keys.iter().enumerate() {
        assert_eq!(map.get(key), Some(&(i as u32)));
    }
    assert_eq!(map.get("c"), None);
}

#[test]
fn maps_hold_the_last_value() {
    let mut map: TextMap<u32> = TextMap::new();
    map.insert("a".to_string(), 1);
    map.insert("b".to_string(), 2);
    map.insert("a".to_string(), 3);
    assert_eq!(map.len(), 2);
    assert_eq!(map.get("a"), Some(&3));
    assert_eq!(map.value(1), &2);
    assert_eq!(map.remove("a"), Some(3));
    assert_eq!(map.remove("a"), None);
    assert_eq!(map.len(), 1);
    assert_eq!(map.get("a"), None);
}
