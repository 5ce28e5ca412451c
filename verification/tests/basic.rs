use bkmap::levenshtein::{Levenshtein, LevenshteinMetric};
use bkmap::metric::{BuildMetric, Metric};
use bkmap::tree::BKMap;

fn unit_metric() -> LevenshteinMetric {
    Levenshtein::default().build()
}

#[test]
fn distance_empty_empty() {
    let mut m = unit_metric();
    assert_eq!(m.distance(&b"".to_vec(), &b"".to_vec()), 0);
}

#[test]
fn distance_empty_abc_counts_insertions() {
    let mut m = unit_metric();
    assert_eq!(m.distance(&b"".to_vec(), &b"abc".to_vec()), 3);
    let mut w = Levenshtein::new(2, 1, 5).build();
    assert_eq!(w.distance(&b"".to_vec(), &b"abc".to_vec()), 6);
    assert_eq!(w.distance(&b"abc".to_vec(), &b"".to_vec()), 3);
}

#[test]
fn distance_self_is_zero() {
    let mut m = unit_metric();
    assert_eq!(m.distance(&b"abc".to_vec(), &b"abc".to_vec()), 0);
    assert_eq!(m.distance(&b"kitten".to_vec(), &b"kitten".to_vec()), 0);
}

#[test]
fn distance_kitten_sitting() {
    let mut m = unit_metric();
    assert_eq!(m.distance(&b"kitten".to_vec(), &b"sitting".to_vec()), 3);
}

#[test]
fn weighted_substitution_can_be_beaten_by_delete_insert() {
    let mut w = Levenshtein::new(2, 1, 5).build();
    // replacing one letter: a substitution costs 5, deleting (1) and
    // inserting (2) costs 3
    assert_eq!(w.distance(&b"a".to_vec(), &b"b".to_vec()), 3);
    let mut u = unit_metric();
    assert_eq!(u.distance(&b"a".to_vec(), &b"b".to_vec()), 1);
}

#[test]
fn scratch_row_is_reset_between_calls() {
    let mut m = unit_metric();
    assert_eq!(m.distance(&b"abcdefgh".to_vec(), &b"abcdefgh".to_vec()), 0);
    assert_eq!(m.distance(&b"ab".to_vec(), &b"ba".to_vec()), 2);
    assert_eq!(m.distance(&b"".to_vec(), &b"xy".to_vec()), 2);
}

#[test]
fn insert_and_len() {
    let mut map: BKMap<Vec<u8>, u32, Levenshtein> = BKMap::with_metric(Levenshtein::default());
    assert!(map.is_empty());
    assert_eq!(map.len(), 0);
    map.insert(b"book".to_vec(), 1);
    map.insert(b"books".to_vec(), 2);
    map.insert(b"cake".to_vec(), 3);
    assert_eq!(map.len(), 3);
    assert!(!map.is_empty());
    // a key at distance zero merges instead of adding
    map.insert(b"book".to_vec(), 9);
    assert_eq!(map.len(), 3);
}

#[test]
fn search_within_finds_near_keys() {
    let mut map: BKMap<Vec<u8>, u32, Levenshtein> = BKMap::with_metric(Levenshtein::default());
    map.insert(b"book".to_vec(), 1);
    map.insert(b"books".to_vec(), 2);
    map.insert(b"cake".to_vec(), 3);
    map.insert(b"boo".to_vec(), 4);
    map.insert(b"cape".to_vec(), 5);

    let mut hits: Vec<(usize, Vec<u8>, u32)> = map
        .search_within(b"book".to_vec(), 1)
        .into_iter()
        .map(|(d, k, v)| (d, k.clone(), *v))
        .collect();
    hits.sort();
    assert_eq!(
        hits,
        vec![
            (0, b"book".to_vec(), 1),
            (1, b"boo".to_vec(), 4),
            (1, b"books".to_vec(), 2),
        ]
    );

    let far = map.search_within(b"zzzzzzz".to_vec(), 1);
    assert!(far.is_empty());
}

#[test]
fn search_radius_zero_after_insert() {
    let mut map: BKMap<Vec<u8>, u32, Levenshtein> = BKMap::with_metric(Levenshtein::default());
    map.insert(b"alpha".to_vec(), 10);
    map.insert(b"beta".to_vec(), 20);
    let hits = map.search_within(b"alpha".to_vec(), 0);
    assert_eq!(hits.len(), 1);
    assert_eq!(hits[0].0, 0);
    assert_eq!(hits[0].1, &b"alpha".to_vec());
    assert_eq!(*hits[0].2, 10);
}

#[test]
fn radius_monotonicity_observed() {
    let mut map: BKMap<Vec<u8>, u32, Levenshtein> = BKMap::with_metric(Levenshtein::default());
    for (i, key) in [&b"bat"[..], b"cat", b"hat", b"hats", b"rate"].iter().enumerate() {
        map.insert(key.to_vec(), i as u32);
    }
    let small = map.search_within(b"hat".to_vec(), 1);
    let large = map.search_within(b"hat".to_vec(), 2);
    for (d, k, v) in &small {
        assert!(large.iter().any(|(d2, k2, v2)| d2 == d && k2 == k && v2 == v));
    }
    assert!(large.len() >= small.len());
}

#[test]
fn insert_or_modify_merges_only_on_collision() {
    let mut map: BKMap<Vec<u8>, u32, Levenshtein> = BKMap::with_metric(Levenshtein::default());
    map.insert_or_modify(b"word".to_vec(), 1, |old, new| old + new);
    map.insert_or_modify(b"word".to_vec(), 5, |old, new| old + new);
    map.insert_or_modify(b"other".to_vec(), 7, |old, new| old + new);
    let hits = map.search_within(b"word".to_vec(), 0);
    assert_eq!(hits.len(), 1);
    assert_eq!(*hits[0].2, 6);
    assert_eq!(map.len(), 2);
}

#[test]
fn insert_and_modify_sees_presence() {
    let mut map: BKMap<Vec<u8>, u32, Levenshtein> = BKMap::with_metric(Levenshtein::default());
    map.insert_and_modify(b"x".to_vec(), 3, |cur, other| match other {
        Some(n) => cur + n,
        None => cur * 10,
    });
    map.insert_and_modify(b"x".to_vec(), 4, |cur, other| match other {
        Some(n) => cur + n,
        None => cur * 10,
    });
    let hits = map.search_within(b"x".to_vec(), 0);
    assert_eq!(*hits[0].2, 34);
}

#[test]
fn shrink_to_fit_keeps_contents_and_reduces_capacity() {
    let mut map: BKMap<Vec<u8>, u32, Levenshtein> = BKMap::with_metric(Levenshtein::default());
    assert_eq!(map.capacity(), 0);
    for (i, key) in [&b"a"[..], b"ab", b"abc", b"abcd", b"b", b"bc", b"zzz"]
        .iter()
        .enumerate()
    {
        map.insert(key.to_vec(), i as u32);
    }
    let len_before = map.len();
    let cap_before = map.capacity();
    map.shrink_to_fit();
    assert_eq!(map.len(), len_before);
    assert!(map.capacity() <= cap_before);
    let hits = map.search_within(b"abc".to_vec(), 0);
    assert_eq!(*hits[0].2, 2);
}

#[test]
fn search_nearest_includes_all_boundary_ties() {
    // distances from the query "hat": 0, 1, 1, 1, 2 — asking for the two
    // nearest must return four entries: the tie at distance 1 is never split
    let mut map: BKMap<Vec<u8>, u32, Levenshtein> = BKMap::with_metric(Levenshtein::default());
    map.insert(b"hat".to_vec(), 0);
    map.insert(b"bat".to_vec(), 1);
    map.insert(b"cat".to_vec(), 2);
    map.insert(b"hats".to_vec(), 3);
    map.insert(b"hatch".to_vec(), 4);
    let res = map.search_nearest(b"hat".to_vec(), 2);
    assert_eq!(res.len(), 4);
    assert_eq!(res[0].0, 0);
    assert_eq!(res[0].1, &b"hat".to_vec());
    for item in &res[1..] {
        assert_eq!(item.0, 1);
    }
    let keys: Vec<&Vec<u8>> = res.iter().map(|(_, k, _)| *k).collect();
    assert!(keys.contains(&&b"bat".to_vec()));
    assert!(keys.contains(&&b"cat".to_vec()));
    assert!(keys.contains(&&b"hats".to_vec()));
    assert!(!keys.contains(&&b"hatch".to_vec()));
}

#[test]
fn search_nearest_truncates_when_no_tie_is_split() {
    // distances from "aaa": 0, 1, 2, 2, 3 — the two nearest are unambiguous
    let mut map: BKMap<Vec<u8>, u32, Levenshtein> = BKMap::with_metric(Levenshtein::default());
    map.insert(b"aaa".to_vec(), 0);
    map.insert(b"aab".to_vec(), 1);
    map.insert(b"abb".to_vec(), 2);
    map.insert(b"bba".to_vec(), 3);
    map.insert(b"bbb".to_vec(), 4);
    let res = map.search_nearest(b"aaa".to_vec(), 2);
    assert_eq!(res.len(), 2);
    assert_eq!((res[0].0, res[0].1.as_slice()), (0, &b"aaa"[..]));
    assert_eq!((res[1].0, res[1].1.as_slice()), (1, &b"aab"[..]));
}

#[test]
fn search_nearest_returns_everything_when_short() {
    let mut map: BKMap<Vec<u8>, u32, Levenshtein> = BKMap::with_metric(Levenshtein::default());
    map.insert(b"one".to_vec(), 1);
    map.insert(b"two".to_vec(), 2);
    let res = map.search_nearest(b"onetwo".to_vec(), 10);
    assert_eq!(res.len(), 2);
    assert!(res[0].0 <= res[1].0);
}

#[test]
fn search_nearest_zero_count_is_empty() {
    let mut map: BKMap<Vec<u8>, u32, Levenshtein> = BKMap::with_metric(Levenshtein::default());
    map.insert(b"one".to_vec(), 1);
    let res = map.search_nearest(b"one".to_vec(), 0);
    assert!(res.is_empty());
}

#[test]
fn capacity_covers_the_child_slots() {
    let mut map: BKMap<Vec<u8>, u32, Levenshtein> = BKMap::with_metric(Levenshtein::default());
    for (i, key) in [&b"a"[..], b"ab", b"abc", b"b", b"bc"].iter().enumerate() {
        map.insert(key.to_vec(), i as u32);
    }
    assert!(map.capacity() >= map.len() - 1);
}
