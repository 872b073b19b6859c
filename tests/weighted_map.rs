use weighted_map::{Key, WeightedMap};

fn s(x: &str) -> String {
    x.to_string()
}

fn sorted(keys: &Vec<String>) -> Vec<String> {
    let mut v = keys.clone();
    v.sort();
    v
}

#[test]
fn basic_test() {
    let mut wm = WeightedMap::new();
    wm.insert("a".to_string(), "b".to_string());

    let w = wm.get_weight("a".to_string());
    assert_eq!(w, Some(&0));

    let v = wm.get_value("a".to_string());
    assert_eq!(v, Some(&"b".to_string()));

    wm.add_weight("a".to_string(), 3);
    let w = wm.get_weight("a".to_string());
    assert_eq!(w, Some(&3));

    wm.subtract_weight("a".to_string(), 1);
    let w = wm.get_weight("a".to_string());
    assert_eq!(w, Some(&2));

    // "a" has moved away from weight 0, whose bucket is dropped with its last key.
    assert!(wm.keys_with_weight(0).is_none());
    let keys = wm.keys_with_weight(2).unwrap();
    assert_eq!(keys.len(), 1);
    assert_eq!(keys[0], "a".to_string());
}

#[test]
fn insert_then_get_value_returns_value() {
    let mut wm = WeightedMap::new();
    wm.insert(s("k"), 42i32);
    wm.insert(s("other"), 7i32);
    assert_eq!(wm.get_value(s("k")), Some(&42));
    assert_eq!(wm.get_value(s("other")), Some(&7));
}

#[test]
fn fresh_key_has_weight_zero() {
    let mut wm = WeightedMap::new();
    wm.insert(s("fresh"), ());
    assert_eq!(wm.get_weight(s("fresh")), Some(&0));
    assert_eq!(sorted(wm.keys_with_weight(0).unwrap()), vec![s("fresh")]);
}

#[test]
fn saturation_applies_at_every_step() {
    let mut wm = WeightedMap::new();
    wm.insert(s("k"), 0u8);
    wm.subtract_weight(s("k"), 5);
    assert_eq!(wm.get_weight(s("k")), Some(&0));
    wm.add_weight(s("k"), 3);
    // The deficit of 5 is not carried over: 0 + 3, not -5 + 3.
    assert_eq!(wm.get_weight(s("k")), Some(&3));
    wm.add_weight(s("k"), u32::MAX);
    assert_eq!(wm.get_weight(s("k")), Some(&u32::MAX));
    wm.add_weight(s("k"), 10);
    assert_eq!(wm.get_weight(s("k")), Some(&u32::MAX));
    wm.subtract_weight(s("k"), 1);
    assert_eq!(wm.get_weight(s("k")), Some(&(u32::MAX - 1)));
    assert_eq!(sorted(wm.keys_with_weight(u32::MAX - 1).unwrap()), vec![s("k")]);
    assert!(wm.keys_with_weight(u32::MAX).is_none());
}

#[test]
fn buckets_follow_every_mutation() {
    let mut wm = WeightedMap::new();
    wm.insert(s("a"), 1);
    wm.insert(s("b"), 2);
    wm.insert(s("c"), 3);
    wm.add_weight(s("a"), 4);
    wm.add_weight(s("b"), 4);
    assert_eq!(sorted(wm.keys_with_weight(4).unwrap()), vec![s("a"), s("b")]);
    assert_eq!(sorted(wm.keys_with_weight(0).unwrap()), vec![s("c")]);
    wm.subtract_weight(s("a"), 1);
    assert_eq!(sorted(wm.keys_with_weight(4).unwrap()), vec![s("b")]);
    assert_eq!(sorted(wm.keys_with_weight(3).unwrap()), vec![s("a")]);
    wm.subtract_weight(s("b"), 4);
    assert!(wm.keys_with_weight(4).is_none());
    assert_eq!(sorted(wm.keys_with_weight(0).unwrap()), vec![s("b"), s("c")]);
    wm.add_weight(s("a"), 0);
    assert_eq!(sorted(wm.keys_with_weight(3).unwrap()), vec![s("a")]);
    for (k, w) in [("a", 3u32), ("b", 0), ("c", 0)] {
        assert_eq!(wm.get_weight(s(k)), Some(&w));
        assert!(wm.keys_with_weight(w).unwrap().contains(&s(k)));
    }
}

#[test]
fn absent_key_is_left_alone() {
    let mut wm: WeightedMap<String, i32> = WeightedMap::new();
    assert!(wm.keys_with_weight(0).is_none());
    wm.insert(s("present"), 1);
    wm.add_weight(s("missing"), 5);
    wm.subtract_weight(s("missing"), 5);
    assert_eq!(wm.get_weight(s("missing")), None);
    assert_eq!(wm.get_value(s("missing")), None);
    assert!(wm.keys_with_weight(5).is_none());
    assert_eq!(sorted(wm.keys_with_weight(0).unwrap()), vec![s("present")]);
    assert_eq!(wm.get_weight(s("present")), Some(&0));
}

#[test]
fn reinsert_resets_weight_and_value() {
    let mut wm = WeightedMap::new();
    wm.insert(s("k"), s("old"));
    wm.add_weight(s("k"), 9);
    assert_eq!(wm.get_weight(s("k")), Some(&9));
    wm.insert(s("k"), s("new"));
    assert_eq!(wm.get_weight(s("k")), Some(&0));
    assert_eq!(wm.get_value(s("k")), Some(&s("new")));
    assert!(wm.keys_with_weight(9).is_none());
    assert_eq!(sorted(wm.keys_with_weight(0).unwrap()), vec![s("k")]);
}

#[test]
fn reinsert_at_weight_zero_keeps_one_copy() {
    let mut wm = WeightedMap::new();
    wm.insert(s("k"), 1);
    wm.insert(s("k"), 2);
    assert_eq!(wm.keys_with_weight(0).unwrap().len(), 1);
    assert_eq!(wm.get_value(s("k")), Some(&2));
}

#[test]
fn scenario_add_then_subtract() {
    let mut wm = WeightedMap::new();
    wm.insert(s("a"), s("b"));
    assert_eq!(wm.get_weight(s("a")), Some(&0));
    assert_eq!(wm.get_value(s("a")), Some(&s("b")));
    wm.add_weight(s("a"), 3);
    assert_eq!(wm.get_weight(s("a")), Some(&3));
    wm.subtract_weight(s("a"), 1);
    assert_eq!(wm.get_weight(s("a")), Some(&2));
    assert!(wm.keys_with_weight(0).is_none());
    assert_eq!(sorted(wm.keys_with_weight(2).unwrap()), vec![s("a")]);
}

#[test]
fn scenario_subtract_saturates_at_zero() {
    let mut wm = WeightedMap::new();
    wm.insert(s("x"), 1);
    wm.subtract_weight(s("x"), 100);
    assert_eq!(wm.get_weight(s("x")), Some(&0));
}

#[test]
fn scenario_multi_key_bucket() {
    let mut wm = WeightedMap::new();
    wm.insert(s("a"), 1);
    wm.insert(s("b"), 2);
    assert_eq!(sorted(wm.keys_with_weight(0).unwrap()), vec![s("a"), s("b")]);
    wm.add_weight(s("a"), 5);
    assert_eq!(sorted(wm.keys_with_weight(0).unwrap()), vec![s("b")]);
    assert_eq!(sorted(wm.keys_with_weight(5).unwrap()), vec![s("a")]);
}

#[test]
fn string_keys_compare_and_copy() {
    let a = s("a");
    assert!(a.same_key(&s("a")));
    assert!(!a.same_key(&s("b")));
    assert_eq!(a.copy_key(), s("a"));
}
