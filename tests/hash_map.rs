use rkyv_core::hash_index::{build, ArchivedHashIndex, BuildError};
use rkyv_core::hash_map::ArchivedHashMap;

fn archive<V>(items: Vec<(Vec<u8>, V)>) -> ArchivedHashMap<V> {
    let len = items.len();
    let resolver = ArchivedHashMap::serialize_from_iter(items).expect("archiving failed");
    assert_eq!(resolver.len(), len);
    ArchivedHashMap::resolve_from_len(len, resolver)
}

fn abc() -> ArchivedHashMap<u64> {
    archive(vec![(b"a".to_vec(), 1u64), (b"b".to_vec(), 2), (b"c".to_vec(), 3)])
}

fn numbered(n: u64) -> Vec<(Vec<u8>, u64)> {
    (0..n).map(|i| (format!("key-{}", i).into_bytes(), i * 7 + 1)).collect()
}

#[test]
fn scenario_abc() {
    let m = abc();
    assert_eq!(m.get(b"b"), Some(&2));
    assert_eq!(m.get(b"z"), None);
    assert_eq!(m.len(), 3);
    assert_eq!(*m.index(b"b"), 2);
    let mut it = m.iter();
    let mut pairs = Vec::new();
    while let Some((k, v)) = it.next() {
        pairs.push((k.clone(), *v));
    }
    pairs.sort();
    assert_eq!(pairs, vec![(b"a".to_vec(), 1), (b"b".to_vec(), 2), (b"c".to_vec(), 3)]);
}

#[test]
fn round_trip_many_keys() {
    let items = numbered(2000);
    let m = archive(items.clone());
    assert_eq!(m.len(), 2000);
    for (k, v) in &items {
        assert_eq!(m.get(k), Some(v));
    }
}

#[test]
fn no_false_negatives() {
    let items = numbered(500);
    let m = archive(items.clone());
    for (k, _) in &items {
        assert!(m.contains_key(k));
    }
}

#[test]
fn absent_keys_are_rejected() {
    let m = archive(numbered(300));
    for i in 300..1300u64 {
        let k = format!("key-{}", i).into_bytes();
        assert_eq!(m.get(&k), None);
        assert!(!m.contains_key(&k));
    }
    assert_eq!(m.get(b""), None);
}

#[test]
fn iteration_is_complete() {
    let items = numbered(257);
    let m = archive(items.clone());
    assert_eq!(m.iter().count(), m.len());
    assert_eq!(m.iter().len(), 257);
    let mut keys = Vec::new();
    let mut it = m.keys();
    assert_eq!(it.len(), 257);
    while let Some(k) = it.next() {
        keys.push(k.clone());
    }
    keys.sort();
    let mut expected: Vec<Vec<u8>> = items.iter().map(|(k, _)| k.clone()).collect();
    expected.sort();
    assert_eq!(keys, expected);
}

#[test]
fn values_walk_every_value() {
    let m = abc();
    let mut it = m.values();
    let mut vals = Vec::new();
    while let Some(v) = it.next() {
        vals.push(*v);
    }
    vals.sort();
    assert_eq!(vals, vec![1, 2, 3]);
    assert_eq!(it.len(), 0);
    assert!(it.next().is_none());
}

#[test]
fn equal_regardless_of_insertion_order() {
    let items = numbered(100);
    let mut reversed = items.clone();
    reversed.reverse();
    let a = archive(items);
    let b = archive(reversed);
    assert!(a.eq(&b));
    assert!(b.eq(&a));
}

#[test]
fn unequal_on_one_differing_value() {
    let items = numbered(50);
    let mut changed = items.clone();
    changed[17].1 += 1;
    let a = archive(items);
    let b = archive(changed);
    assert!(!a.eq(&b));
}

#[test]
fn unequal_on_different_length() {
    let a = abc();
    let b = archive(vec![(b"a".to_vec(), 1u64), (b"b".to_vec(), 2)]);
    assert!(!a.eq(&b));
    assert!(!b.eq(&a));
}

#[test]
fn duplicate_keys_are_reported() {
    let items = vec![(b"x".to_vec(), 1u64), (b"y".to_vec(), 2), (b"x".to_vec(), 3)];
    assert!(matches!(ArchivedHashMap::serialize_from_iter(items), Err(BuildError::DuplicateKey)));
    let keys = vec![b"same".to_vec(), b"same".to_vec()];
    assert!(matches!(build(&keys), Err(BuildError::DuplicateKey)));
}

#[test]
fn empty_map() {
    let m: ArchivedHashMap<u64> = archive(Vec::new());
    assert!(m.is_empty());
    assert_eq!(m.len(), 0);
    assert_eq!(m.get(b"a"), None);
    assert_eq!(m.iter().count(), 0);
    assert!(!abc().is_empty());
}

#[test]
fn single_entry_map() {
    let m = archive(vec![(b"only".to_vec(), 42u64)]);
    assert_eq!(m.len(), 1);
    assert_eq!(m.get(b"only"), Some(&42));
    assert_eq!(m.get(b"other"), None);
}

#[test]
fn get_key_value_returns_stored_key() {
    let m = abc();
    let (k, v) = m.get_key_value(b"c").unwrap();
    assert_eq!(k.as_slice(), b"c");
    assert_eq!(*v, 3);
    assert!(m.get_key_value(b"d").is_none());
}

#[test]
fn get_pin_changes_only_the_value() {
    let mut m = abc();
    *m.get_pin(b"a").unwrap() = 10;
    assert!(m.get_pin(b"q").is_none());
    assert_eq!(m.get(b"a"), Some(&10));
    assert_eq!(m.get(b"b"), Some(&2));
    assert_eq!(m.len(), 3);
}

#[test]
fn pinned_iterators_reach_every_value() {
    let mut m = abc();
    let mut slots = m.values_pin();
    while let Some(s) = slots.next() {
        *m.value_pin_at(s) += 100;
    }
    assert_eq!(m.get(b"a"), Some(&101));
    assert_eq!(m.get(b"c"), Some(&103));
    let mut entries = m.iter_pin();
    assert_eq!(entries.len(), 3);
    while let Some(s) = entries.next() {
        let (k, v) = m.entry_pin_at(s);
        if k.as_slice() == b"b" {
            *v = 0;
        }
    }
    assert_eq!(m.get(b"b"), Some(&0));
}

#[test]
fn index_places_each_key_in_its_slot() {
    let keys: Vec<Vec<u8>> = (0..400u32).map(|i| i.to_le_bytes().to_vec()).collect();
    let (index, owner, slot) = build(&keys).expect("index build failed");
    assert_eq!(index.len(), 400);
    for (j, k) in keys.iter().enumerate() {
        assert_eq!(index.index(k), Some(slot[j]));
        assert_eq!(owner[slot[j]], j);
    }
    let mut seen = slot.clone();
    seen.sort();
    assert_eq!(seen, (0..400).collect::<Vec<usize>>());
}

#[test]
fn empty_index_answers_none() {
    let index = ArchivedHashIndex::empty();
    assert!(index.is_empty());
    assert_eq!(index.index(b"a"), None);
    let (built, owner, slot) = build(&Vec::new()).unwrap();
    assert_eq!(built.len(), 0);
    assert!(owner.is_empty() && slot.is_empty());
}

#[test]
fn byte_equality() {
    assert!(rkyv_core::hash::bytes_eq(b"abc", b"abc"));
    assert!(!rkyv_core::hash::bytes_eq(b"abc", b"abd"));
    assert!(!rkyv_core::hash::bytes_eq(b"ab", b"abc"));
    assert!(rkyv_core::hash::bytes_eq(b"", b""));
}

#[test]
fn every_map_shares_the_hash_seeds() {
    let a = abc();
    let b: ArchivedHashMap<u64> = archive(Vec::new());
    assert_eq!(a.hasher(), b.hasher());
    assert_eq!(a.hasher().0, rkyv_core::hash_index::SEED_A);
}

#[test]
fn writing_through_get_key_value_pin_keeps_keys() {
    let mut m = abc();
    {
        let (k, v) = m.get_key_value_pin(b"c").unwrap();
        assert_eq!(k.as_slice(), b"c");
        *v = 30;
    }
    assert!(m.get_key_value_pin(b"q").is_none());
    assert_eq!(m.get(b"c"), Some(&30));
    assert_eq!(m.get(b"a"), Some(&1));
    assert_eq!(m.keys().len(), 3);
    assert_eq!(m.values().len(), 3);
}
