use grouping::grouping_map::new;
use std::collections::BTreeSet;
use std::collections::HashMap;
use std::collections::HashSet;

fn sample() -> Vec<(u8, i64)> {
    vec![(3, 10), (1, -4), (3, 7), (9, 0), (1, 4), (3, -17), (200, 1), (9, 9), (1, 1)]
}

fn distinct_keys(items: &[(u8, i64)]) -> HashSet<u8> {
    let mut keys: HashSet<u8> = HashSet::new();
    for item in items {
        keys.insert(item.0);
    }
    keys
}

fn keys_of<R>(map: &HashMap<u8, R>) -> HashSet<u8> {
    let mut keys: HashSet<u8> = HashSet::new();
    for key in map.keys() {
        keys.insert(*key);
    }
    keys
}

#[test]
fn fold_has_every_key_of_the_source() {
    let map = new(sample().into_iter()).fold(0i64, |acc, _key, val| acc + val);
    assert_eq!(keys_of(&map), distinct_keys(&sample()));
}

#[test]
fn fold_first_has_every_key_of_the_source() {
    let map = new(sample().into_iter()).fold_first(|acc, _key, val| acc.max(val));
    assert_eq!(keys_of(&map), distinct_keys(&sample()));
}

#[test]
fn collect_has_every_key_of_the_source() {
    let map = new(sample().into_iter()).collect::<Vec<i64>>();
    assert_eq!(keys_of(&map), distinct_keys(&sample()));
}

#[test]
fn count_has_every_key_of_the_source() {
    let map = new(sample().into_iter()).count();
    assert_eq!(keys_of(&map), distinct_keys(&sample()));
}

#[test]
fn aggregate_has_no_key_that_the_source_lacks() {
    let map = new(sample().into_iter()).aggregate(|_acc: Option<i64>, _key, val| Some(val));
    assert!(keys_of(&map).is_subset(&distinct_keys(&sample())));
    assert_eq!(map.len(), 4);
}

#[test]
fn reset_on_the_last_value_removes_the_key() {
    let items: Vec<(char, i32)> = vec![('a', 1), ('b', 2), ('a', 3), ('b', 0)];
    let map = new(items.into_iter()).aggregate(|acc: Option<i32>, _key, val| {
        if val == 0 {
            None
        } else {
            Some(acc.unwrap_or(0) + val)
        }
    });
    assert_eq!(map.get(&'a'), Some(&4));
    assert_eq!(map.get(&'b'), None);
    assert_eq!(map.len(), 1);
}

#[test]
fn later_value_brings_the_key_back() {
    let items: Vec<(char, i32)> = vec![('a', 1), ('a', 0), ('b', 0), ('a', 5), ('a', 6)];
    let map = new(items.into_iter()).aggregate(|acc: Option<i32>, _key, val| {
        if val == 0 {
            None
        } else {
            Some(acc.unwrap_or(0) + val)
        }
    });
    assert_eq!(map.get(&'a'), Some(&11));
    assert_eq!(map.get(&'b'), None);
    assert_eq!(map.len(), 1);
}

#[test]
fn order_of_the_values_matters() {
    let reset = |acc: Option<i32>, _key: &u8, val: i32| {
        if val == 0 {
            None
        } else {
            Some(acc.unwrap_or(0) + val)
        }
    };
    let kept = new(vec![(1u8, 0), (1u8, 7)].into_iter()).aggregate(reset);
    let dropped = new(vec![(1u8, 7), (1u8, 0)].into_iter()).aggregate(reset);
    assert_eq!(kept.get(&1), Some(&7));
    assert_eq!(dropped.get(&1), None);
}

#[test]
fn fold_that_ignores_values_returns_init() {
    let init: Vec<u8> = vec![4, 2];
    let map = new(sample().into_iter()).fold(init.clone(), |acc, _key, _val| acc);
    assert_eq!(map.len(), 4);
    for key in distinct_keys(&sample()) {
        assert_eq!(map[&key], init);
    }
}

#[test]
fn fold_first_of_one_value_is_that_value() {
    let items: Vec<(u8, String)> = vec![
        (1, String::from("x")),
        (2, String::from("only")),
        (1, String::from("y")),
    ];
    let map = new(items.into_iter()).fold_first(|acc, _key, val| acc + &val);
    assert_eq!(map[&2], "only");
    assert_eq!(map[&1], "xy");
    assert_eq!(map.len(), 2);
}

#[test]
fn fold_first_does_not_call_on_single_values() {
    let items: Vec<(u8, i32)> = vec![(1, 10), (2, 20), (3, 30)];
    let mut calls: usize = 0;
    let map = new(items.into_iter()).fold_first(|acc, _key, val| {
        calls += 1;
        acc + val
    });
    assert_eq!(calls, 0);
    assert_eq!(map[&1], 10);
    assert_eq!(map[&2], 20);
    assert_eq!(map[&3], 30);
}

#[test]
fn count_is_the_number_of_items_with_the_key() {
    let map = new(sample().into_iter()).count();
    for key in distinct_keys(&sample()) {
        let expected = sample().iter().filter(|item| item.0 == key).count();
        assert_eq!(map[&key], expected);
    }
    assert_eq!(map[&3], 3);
    assert_eq!(map[&1], 3);
    assert_eq!(map[&9], 2);
    assert_eq!(map[&200], 1);
    assert_eq!(map.get(&0), None);
}

#[test]
fn count_is_never_zero() {
    let map = new(sample().into_iter()).count();
    for count in map.values() {
        assert!(*count > 0);
    }
}

#[test]
fn aggregate_of_nothing_is_empty() {
    let items: Vec<(u8, i64)> = Vec::new();
    let map = new(items.into_iter()).aggregate(|_acc: Option<i64>, _key, val| Some(val));
    assert!(map.is_empty());
}

#[test]
fn fold_of_nothing_is_empty() {
    let items: Vec<(u8, i64)> = Vec::new();
    let map = new(items.into_iter()).fold(5i64, |acc, _key, val| acc + val);
    assert!(map.is_empty());
}

#[test]
fn fold_first_of_nothing_is_empty() {
    let items: Vec<(u8, i64)> = Vec::new();
    let map = new(items.into_iter()).fold_first(|acc, _key, val| acc + val);
    assert!(map.is_empty());
}

#[test]
fn collect_of_nothing_is_empty() {
    let items: Vec<(u8, i64)> = Vec::new();
    let map = new(items.into_iter()).collect::<BTreeSet<i64>>();
    assert!(map.is_empty());
}

#[test]
fn count_of_nothing_is_empty() {
    let items: Vec<(u8, i64)> = Vec::new();
    let map = new(items.into_iter()).count();
    assert!(map.is_empty());
}
