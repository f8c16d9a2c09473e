use grouping::grouping_map::new;
use std::collections::HashMap;
use std::collections::HashSet;

#[test]
fn aggregate_resets_on_zero_and_ten() {
    let data: Vec<u64> = vec![2, 8, 5, 7, 9, 0, 4, 10];
    let lookup: HashMap<u64, u64> = new(data.into_iter().map(|n| (n % 4, n))).aggregate(
        |acc: Option<u64>, _key: &u64, val: u64| {
            if val == 0 || val == 10 {
                None
            } else {
                Some(acc.unwrap_or(0) + val)
            }
        },
    );
    assert_eq!(lookup[&0], 4);
    assert_eq!(lookup[&1], 14);
    assert_eq!(lookup.get(&2), None);
    assert_eq!(lookup[&3], 7);
    assert_eq!(lookup.len(), 3);
}

#[test]
fn aggregate_on_explicit_pairs() {
    let pairs: Vec<(u64, u64)> =
        vec![(0, 2), (0, 8), (1, 5), (3, 7), (1, 9), (0, 0), (0, 4), (2, 10)];
    let lookup: HashMap<u64, u64> =
        new(pairs.into_iter()).aggregate(|acc: Option<u64>, _key: &u64, val: u64| {
            if val == 0 || val == 10 {
                None
            } else {
                Some(acc.unwrap_or(0) + val)
            }
        });
    let mut expected: HashMap<u64, u64> = HashMap::new();
    expected.insert(0, 4);
    expected.insert(1, 14);
    expected.insert(3, 7);
    assert_eq!(lookup, expected);
    assert!(!lookup.contains_key(&2));
}

#[test]
fn fold_sums_each_group() {
    let lookup: HashMap<u64, u64> =
        new((1u64..=7).map(|n| (n % 3, n))).fold(0u64, |acc, _key, val| acc + val);
    assert_eq!(lookup[&0], 9);
    assert_eq!(lookup[&1], 12);
    assert_eq!(lookup[&2], 7);
    assert_eq!(lookup.len(), 3);
}

#[test]
fn fold_first_sums_each_group() {
    let lookup: HashMap<u64, u64> =
        new((1u64..=7).map(|n| (n % 3, n))).fold_first(|acc, _key, val| acc + val);
    assert_eq!(lookup[&0], 9);
    assert_eq!(lookup[&1], 12);
    assert_eq!(lookup[&2], 7);
    assert_eq!(lookup.len(), 3);
}

#[test]
fn collect_into_sets() {
    let data: Vec<u64> = vec![0, 1, 2, 3, 4, 5, 6, 2, 3, 6];
    let lookup: HashMap<u64, HashSet<u64>> =
        new(data.into_iter().map(|n| (n % 3, n))).collect::<HashSet<u64>>();
    assert_eq!(lookup[&0], vec![0u64, 3, 6].into_iter().collect::<HashSet<u64>>());
    assert_eq!(lookup[&1], vec![1u64, 4].into_iter().collect::<HashSet<u64>>());
    assert_eq!(lookup[&2], vec![2u64, 5].into_iter().collect::<HashSet<u64>>());
    assert_eq!(lookup.len(), 3);
}

#[test]
fn count_each_group() {
    let data: Vec<u64> = vec![0, 1, 2, 3, 4, 5, 6, 2, 3, 6];
    let lookup: HashMap<u64, usize> = new(data.into_iter().map(|n| (n % 3, n))).count();
    assert_eq!(lookup[&0], 5);
    assert_eq!(lookup[&1], 2);
    assert_eq!(lookup[&2], 3);
    assert_eq!(lookup.len(), 3);
}
