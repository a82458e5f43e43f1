use dominus::{Dominus, DominusError, DominusKey, Entry};
use rand::Rng;
use std::collections::HashMap;

#[test]
fn new_table_is_empty() {
    let table = Dominus::<i32, i32>::new(8, 6);
    assert_eq!(table.size(), 0);
    assert_eq!(table.get(&3), Ok(None));
}

#[test]
fn insert_then_get_gives_the_value() {
    let mut table = Dominus::<i32, u8>::new(8, 6);
    assert_eq!(table.insert(42, 7), Ok(None));
    assert_eq!(table.get(&42), Ok(Some(7)));
    assert_eq!(table.get(&43), Ok(None));
    assert_eq!(table.size(), 1);
}

#[test]
fn insert_of_present_key_returns_old_value() {
    let mut table = Dominus::<i32, i32>::new(8, 6);
    assert_eq!(table.insert(1, 10), Ok(None));
    assert_eq!(table.insert(1, 11), Ok(Some(10)));
    assert_eq!(table.get(&1), Ok(Some(11)));
    assert_eq!(table.size(), 1);
}

#[test]
fn remove_returns_value_and_forgets_key() {
    let mut table = Dominus::<i32, i32>::new(8, 6);
    table.insert(5, 50).unwrap();
    table.insert(6, 60).unwrap();
    assert_eq!(table.remove(&5), Ok(Some(50)));
    assert_eq!(table.get(&5), Ok(None));
    assert_eq!(table.get(&6), Ok(Some(60)));
    assert_eq!(table.remove(&5), Ok(None));
    assert_eq!(table.size(), 1);
}

#[test]
fn insert_then_remove_restores_size() {
    let mut table = Dominus::<u64, i32>::new(16, 12);
    for k in 0..5u64 {
        table.insert(k, k as i32).unwrap();
    }
    assert_eq!(table.insert(100, -1), Ok(None));
    assert_eq!(table.size(), 6);
    assert_eq!(table.remove(&100), Ok(Some(-1)));
    assert_eq!(table.size(), 5);
    for k in 0..5u64 {
        assert_eq!(table.get(&k), Ok(Some(k as i32)));
    }
}

#[test]
fn full_table_refuses_and_stays_unchanged() {
    let mut table = Dominus::<i32, i32>::new(4, 2);
    table.insert(1, 1).unwrap();
    table.insert(2, 2).unwrap();
    assert_eq!(table.insert(3, 3), Err(DominusError::TableFull));
    // A key already present is refused too once the limit is reached.
    assert_eq!(table.insert(1, 9), Err(DominusError::TableFull));
    assert_eq!(table.size(), 2);
    assert_eq!(table.get(&1), Ok(Some(1)));
    assert_eq!(table.get(&3), Ok(None));
    // Removing makes room again.
    assert_eq!(table.remove(&2), Ok(Some(2)));
    assert_eq!(table.insert(3, 3), Ok(None));
}

#[test]
fn zero_max_size_refuses_everything() {
    let mut table = Dominus::<i32, i32>::new(4, 0);
    assert_eq!(table.insert(1, 1), Err(DominusError::TableFull));
    assert_eq!(table.size(), 0);
}

#[test]
fn single_bucket_table() {
    let mut table = Dominus::<i64, i32>::new(1, 1);
    assert_eq!(table.insert(-7, 3), Ok(None));
    assert_eq!(table.get(&-7), Ok(Some(3)));
    assert_eq!(table.insert(8, 4), Err(DominusError::TableFull));
    assert_eq!(table.remove(&-7), Ok(Some(3)));
    assert_eq!(table.insert(8, 4), Ok(None));
    assert_eq!(table.get(&8), Ok(Some(4)));
    assert_eq!(table.get(&-7), Ok(None));
}

#[test]
fn every_bucket_filled_then_emptied() {
    // A limit above the number of buckets lets the table fill up completely.
    let mut table = Dominus::<u32, u32>::new(8, 100);
    for k in 0..8u32 {
        assert_eq!(table.insert(k, k * 10), Ok(None));
    }
    assert_eq!(table.size(), 8);
    // Updating a present key still works in a full table.
    assert_eq!(table.insert(3, 33), Ok(Some(30)));
    for k in 0..8u32 {
        let expected = if k == 3 { 33 } else { k * 10 };
        assert_eq!(table.get(&k), Ok(Some(expected)));
    }
    for k in (0..8u32).rev() {
        assert!(table.remove(&k).unwrap().is_some());
        for j in 0..k {
            assert!(table.get(&j).unwrap().is_some());
        }
    }
    assert_eq!(table.size(), 0);
}

#[test]
fn random_operations_agree_with_a_map() {
    let mut rng = rand::thread_rng();
    for _round in 0..20 {
        let capacity = rng.gen_range(1..40usize);
        let max_size = rng.gen_range(0..=capacity);
        let mut table = Dominus::<i32, i32>::new(capacity, max_size);
        let mut model: HashMap<i32, i32> = HashMap::new();
        for _op in 0..2_000 {
            let k: i32 = rng.gen_range(0..60);
            let v: i32 = rng.gen();
            match rng.gen_range(0..3) {
                0 => {
                    let r = table.insert(k, v);
                    if model.len() >= max_size {
                        assert_eq!(r, Err(DominusError::TableFull));
                    } else {
                        assert_eq!(r, Ok(model.insert(k, v)));
                    }
                }
                1 => assert_eq!(table.get(&k), Ok(model.get(&k).copied())),
                _ => assert_eq!(table.remove(&k), Ok(model.remove(&k))),
            }
            assert_eq!(table.size(), model.len());
            assert!(table.size() <= capacity);
        }
        for (k, v) in model.iter() {
            assert_eq!(table.get(k), Ok(Some(*v)));
        }
    }
}

#[test]
fn keys_are_hashed_by_ahash() {
    // The hash is a function of the key, and not the key itself.
    assert_eq!(5i32.hash_key(), 5i32.hash_key());
    assert_ne!(5i32.hash_key(), 5);
    assert_ne!(5i32.hash_key(), 6i32.hash_key());
    assert_eq!(5i64.hash_key(), 5i64.hash_key());
    assert_ne!(5i64.hash_key(), 5);
    assert_eq!(5u32.hash_key(), 5u32.hash_key());
    assert_ne!(5u32.hash_key(), 5);
    assert_eq!(5u64.hash_key(), 5u64.hash_key());
    assert_ne!(5u64.hash_key(), 5);
}

#[test]
fn same_key_compares_values() {
    assert!(3i32.same_key(&3));
    assert!(!3i32.same_key(&4));
    assert!(!7u64.same_key(&8));
}

#[test]
fn entry_new_keeps_its_parts() {
    let e = Entry::new(99, 1i32, 2i32, 3);
    assert_eq!(e.hash, 99);
    assert_eq!(e.key, 1);
    assert_eq!(e.value, 2);
    assert_eq!(e.psl, 3);
}

#[test]
fn try_insert_declines_only_the_endless_case() {
    let mut table = Dominus::<i32, i32>::new(2, 5);
    assert_eq!(table.try_insert(1, 1), Some(Ok(None)));
    assert_eq!(table.try_insert(2, 2), Some(Ok(None)));
    // Every bucket taken, below the limit, new key: declined, nothing changes.
    assert_eq!(table.try_insert(3, 3), None);
    assert_eq!(table.size(), 2);
    assert_eq!(table.get(&3), Ok(None));
    // A present key is still updated.
    assert_eq!(table.try_insert(2, 20), Some(Ok(Some(2))));
    assert_eq!(table.get(&2), Ok(Some(20)));
    // At the limit the insertion is refused as `insert` refuses it.
    let mut limited = Dominus::<i32, i32>::new(2, 2);
    limited.insert(1, 1).unwrap();
    limited.insert(2, 2).unwrap();
    assert_eq!(limited.try_insert(3, 3), Some(Err(DominusError::TableFull)));
}

#[test]
fn size_steps_by_one_on_new_keys_and_removals() {
    let mut table = Dominus::<i32, i32>::new(16, 12);
    let mut expected = 0usize;
    for k in 0..10 {
        assert_eq!(table.insert(k, k), Ok(None));
        expected += 1;
        assert_eq!(table.size(), expected);
        assert_eq!(table.insert(k, k + 1), Ok(Some(k)));
        assert_eq!(table.size(), expected);
    }
    for k in 0..10 {
        assert_eq!(table.remove(&k), Ok(Some(k + 1)));
        expected -= 1;
        assert_eq!(table.size(), expected);
        assert_eq!(table.remove(&k), Ok(None));
        assert_eq!(table.size(), expected);
    }
}

#[test]
fn held_keys_are_always_found() {
    let mut table = Dominus::<u64, u64>::new(32, 32);
    for k in [u64::MAX, 0, 1 << 63, 12345] {
        table.insert(k, k / 2).unwrap();
    }
    for k in [u64::MAX, 0, 1 << 63, 12345] {
        assert_eq!(table.get(&k), Ok(Some(k / 2)));
    }
}
