use signaling::ord_map::{OrdMap, OrdSet};
use signaling::text::{canonical_u64, constant_time_eq, same_secret, to_decimal};
use signaling::time::{earlier, Duration, Instant};

#[test]
fn decimals_are_written_without_leading_zeros() {
    assert_eq!(to_decimal(0), "0");
    assert_eq!(to_decimal(7), "7");
    assert_eq!(to_decimal(10), "10");
    assert_eq!(to_decimal(1_000_203), "1000203");
    assert_eq!(to_decimal(u64::MAX), "18446744073709551615");
}

#[test]
fn each_number_has_one_spelling() {
    for n in [0, 1, 9, 10, 42, 99, 100, 12_345, u64::MAX - 1, u64::MAX] {
        assert_eq!(canonical_u64(&to_decimal(n)), Some(n));
        assert_eq!(canonical_u64(&format!("0{}", to_decimal(n))), None);
    }
    assert_eq!(canonical_u64("184467440737095516150"), None);
    assert_eq!(canonical_u64("99999999999999999999"), None);
    assert_eq!(canonical_u64("12a"), None);
    assert_eq!(canonical_u64("\u{661}"), None);
}

#[test]
fn secrets_are_compared_whole() {
    assert!(constant_time_eq(b"", b""));
    assert!(constant_time_eq(b"abc", b"abc"));
    assert!(!constant_time_eq(b"abc", b"abd"));
    assert!(!constant_time_eq(b"abc", b"xbc"));
    assert!(!constant_time_eq(b"abc", b"ab"));
    assert!(same_secret("t\u{e9}", "t\u{e9}"));
    assert!(!same_secret("t\u{e9}", "te"));
}

#[test]
fn time_adds_up_to_the_last_point() {
    assert_eq!(Duration::from_secs(2).nanos, 2_000_000_000);
    assert_eq!(
        Duration::from_secs(u64::MAX).nanos,
        18_446_744_073_709_551_615_000_000_000
    );
    let start = Instant::from_nanos(5);
    assert_eq!(start.after(Duration::from_nanos(7)), Instant::from_nanos(12));
    assert_eq!(start + Duration::from_nanos(7), Instant::from_nanos(12));
    assert_eq!(
        Instant::from_nanos(u128::MAX - 1) + Duration::from_nanos(7),
        Instant::from_nanos(u128::MAX)
    );
    assert!(start.is_due(Instant::from_nanos(5)));
    assert!(start.is_due(Instant::from_nanos(6)));
    assert!(!start.is_due(Instant::from_nanos(4)));
}

#[test]
fn the_earlier_of_two_points() {
    let (a, b) = (Instant::from_nanos(1), Instant::from_nanos(2));
    assert_eq!(earlier(Some(a), Some(b)), Some(a));
    assert_eq!(earlier(Some(b), Some(a)), Some(a));
    assert_eq!(earlier(Some(b), None), Some(b));
    assert_eq!(earlier(None, Some(b)), Some(b));
    assert_eq!(earlier(None, None), None);
}

#[test]
fn maps_keep_their_keys_in_order() {
    let mut map: OrdMap<String, u64> = OrdMap::new();
    assert!(map.is_empty());
    for (key, value) in [("b", 2), ("a", 1), ("ab", 3), ("a", 4)] {
        map.insert(key.to_string(), value);
    }
    assert_eq!(map.len(), 3);
    assert_eq!(
        map.keys(),
        vec!["a".to_string(), "ab".to_string(), "b".to_string()]
    );
    assert_eq!(map.get(&"a".to_string()), Some(&4));
    assert!(!map.contains_key(&"c".to_string()));
    *map.get_mut(&"b".to_string()).unwrap() = 9;
    assert_eq!(map.remove(&"b".to_string()), Some(9));
    assert_eq!(map.remove(&"b".to_string()), None);
    assert_eq!(map.len(), 2);
    map.clear();
    assert!(map.is_empty());
    assert_eq!(map.get(&"a".to_string()), None);
}

#[test]
fn maps_order_pairs_by_their_first_part() {
    let mut map: OrdMap<(u64, u64), u64> = OrdMap::new();
    for key in [(2, 1), (1, 9), (1, 3), (3, 0)] {
        map.insert(key, key.0);
    }
    assert_eq!(map.keys(), vec![(1, 3), (1, 9), (2, 1), (3, 0)]);
    assert_eq!(map.get(&(1, 9)), Some(&1));
    assert_eq!(map.get(&(9, 1)), None);
}

#[test]
fn texts_are_ordered_by_their_bytes() {
    let mut set: OrdSet<String> = OrdSet::new();
    for text in ["\u{e9}", "z", "", "Z", "zz", "\u{10000}", "\u{ffff}"] {
        assert!(set.insert(text.to_string()));
    }
    let mut expected: Vec<String> = set.elements();
    expected.sort();
    assert_eq!(set.elements(), expected);
}

#[test]
fn sets_hold_each_element_once() {
    let mut set: OrdSet<u64> = OrdSet::new();
    assert!(set.insert(5));
    assert!(set.insert(3));
    assert!(!set.insert(5));
    assert_eq!(set.len(), 2);
    assert_eq!(set.elements(), vec![3, 5]);
    assert!(set.contains(&3));
    assert!(set.remove(&3));
    assert!(!set.remove(&3));
    assert!(!set.contains(&3));
    set.clear();
    assert_eq!(set.len(), 0);
}
