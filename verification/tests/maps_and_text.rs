use clob_api::bytes::{compare, push_u16, push_u64};
use clob_api::keys::{compare_text, same_text};
use clob_api::ordmap::{OrdMap, Rank};
use clob_api::text::{decimal_text, parse_decimal};

#[test]
fn map_keeps_keys_in_order() {
    let mut m: OrdMap<str, u64> = OrdMap::new();
    assert!(m.is_empty());
    for (k, v) in [("pear", 3u64), ("apple", 1), ("zebra", 4), ("banana", 2)] {
        m.insert(k.to_string(), v);
    }
    assert_eq!(m.len(), 4);
    let keys: Vec<&str> = (0..m.len()).map(|i| m.key_at(i)).collect();
    assert_eq!(keys, vec!["apple", "banana", "pear", "zebra"]);
    assert_eq!(*m.value_at(2), 3);
}

#[test]
fn map_insert_replaces_and_remove_returns() {
    let mut m: OrdMap<u64, String> = OrdMap::new();
    m.insert(5, "five".into());
    m.insert(5, "V".into());
    assert_eq!(m.len(), 1);
    assert_eq!(m.get(&5).unwrap(), "V");
    m.get_mut(&5).unwrap().push('!');
    assert_eq!(m.remove(&5), Some("V!".to_string()));
    assert_eq!(m.remove(&5), None);
    assert!(m.get_mut(&5).is_none());
    assert!(!m.contains_key(&5));
}

#[test]
fn map_agrees_with_std_over_many_keys() {
    let mut ours: OrdMap<u64, u64> = OrdMap::new();
    let mut std = std::collections::BTreeMap::new();
    let mut x: u64 = 12_345;
    for i in 0..2_000u64 {
        x = x.wrapping_mul(6_364_136_223_846_793_005).wrapping_add(1_442_695_040_888_963_407);
        let key = x >> 54;
        if i % 3 == 0 {
            assert_eq!(ours.remove(&key), std.remove(&key));
        } else {
            ours.insert(key, i);
            std.insert(key, i);
        }
    }
    let walked: Vec<(u64, u64)> = (0..ours.len()).map(|i| (*ours.key_at(i), *ours.value_at(i))).collect();
    let expected: Vec<(u64, u64)> = std.into_iter().collect();
    assert_eq!(walked, expected);
}

#[test]
fn strings_compare_as_std_does() {
    for (a, b) in [("", ""), ("", "a"), ("a", "b"), ("ab", "a"), ("é", "z"), ("a\u{10000}", "a\u{ffff}"), ("same", "same")] {
        let expected = match a.cmp(b) {
            std::cmp::Ordering::Less => Rank::Before,
            std::cmp::Ordering::Equal => Rank::Same,
            std::cmp::Ordering::Greater => Rank::After,
        };
        assert_eq!(compare_text(a, b), expected);
        assert_eq!(same_text(a, b), a == b);
    }
    assert_eq!(compare(&[1, 2], &[1, 2, 0]), Rank::Before);
    assert_eq!(compare(&[2], &[1, 9]), Rank::After);
}

#[test]
fn big_endian_encodings() {
    let mut out = vec![7u8];
    push_u16(&mut out, 0x0102);
    push_u64(&mut out, 0x0304_0506_0708_090a);
    assert_eq!(out, vec![7, 1, 2, 3, 4, 5, 6, 7, 8, 9, 10]);
}

#[test]
fn decimal_notation() {
    for n in [0u64, 1, 9, 10, 99, 100, 1_234_567_890, u64::MAX] {
        assert_eq!(decimal_text(n), n.to_string());
        assert_eq!(parse_decimal(&n.to_string()), Some(n));
    }
    for text in ["", "+", "-1", "1x", " 1", "18446744073709551616", "٣", "++1"] {
        assert_eq!(parse_decimal(text), text.parse::<u64>().ok());
    }
    assert_eq!(parse_decimal("+42"), Some(42));
    assert_eq!(parse_decimal("007"), Some(7));
}
