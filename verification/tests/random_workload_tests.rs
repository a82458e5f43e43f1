use dominus::Dominus;
use rand::Rng;
use std::collections::HashMap;

/// The number of entries at which a table of `capacity` buckets reaches the
/// maximum load factor `max_load_factor`: the least size `s` for which
/// `s as f64 / capacity as f64 >= max_load_factor`.
fn max_size_for(capacity: usize, max_load_factor: f64) -> usize {
    let full = |s: usize| (s as f64) / (capacity as f64) >= max_load_factor;
    if !full(usize::MAX) {
        return usize::MAX;
    }
    let (mut lo, mut hi) = (0usize, usize::MAX);
    while lo < hi {
        let mid = lo + (hi - lo) / 2;
        if full(mid) {
            hi = mid;
        } else {
            lo = mid + 1;
        }
    }
    lo
}

fn new_table(capacity: usize, max_load_factor: f64) -> Dominus<i32, i32> {
    Dominus::<i32, i32>::new(capacity, max_size_for(capacity, max_load_factor))
}

/// Picks and takes out a random element of `entries`.
fn take_random(entries: &mut Vec<(i32, i32)>, rng: &mut impl Rng) -> (i32, i32) {
    let i = rng.gen_range(0..entries.len());
    entries.swap_remove(i)
}

#[test]
fn tests_test_insert_get() {
    let mut rng = rand::thread_rng();

    let total_ops = 50_000;
    let mut table = new_table(100_000, 0.8);
    let mut entries: HashMap<i32, i32> = HashMap::new();

    for _op in 0..total_ops {
        let (k, v) = (rng.gen(), rng.gen());
        table.insert(k, v).unwrap();
        entries.insert(k, v);
    }

    let mut entries = Vec::from_iter(entries);

    for _e in 0..entries.len() {
        let (k, v) = take_random(&mut entries, &mut rng);
        let got = table.get(&k).unwrap();
        assert_eq!(got, Some(v));
    }
}

#[test]
fn tests_test_insert_load_factor() {
    let mut rng = rand::thread_rng();

    let total_ops = 80_000;
    let mut table = new_table(100_000, 0.8);
    let mut entries: HashMap<i32, i32> = HashMap::new();

    for _op in 0..total_ops {
        let (mut k, v): (i32, i32) = (rng.gen(), rng.gen());
        while entries.contains_key(&k) {
            k = rng.gen();
        }

        table.insert(k, v).unwrap();
        entries.insert(k, v);
    }

    let (mut k, v): (i32, i32) = (rng.gen(), rng.gen());
    while entries.contains_key(&k) {
        k = rng.gen();
    }

    let res = table.insert(k, v);
    assert!(res.is_err());
}

#[test]
fn tests_test_insert_remove() {
    let mut rng = rand::thread_rng();

    let total_ops = 50_000;
    let mut table = new_table(100_000, 0.8);
    let mut entries: HashMap<i32, i32> = HashMap::new();

    for _op in 0..total_ops {
        let (k, v) = (rng.gen(), rng.gen());
        table.insert(k, v).unwrap();
        entries.insert(k, v);
    }

    let mut entries = Vec::from_iter(entries);

    for _e in 0..entries.len() {
        let (k, _v) = take_random(&mut entries, &mut rng);
        let removed = table.remove(&k);
        assert!(matches!(removed, Ok(Some(_))));
    }
}

#[test]
fn test_test_insert_get() {
    let mut rng = rand::thread_rng();

    let total_ops = 50_000;
    let mut table = new_table(100_000, 0.8);
    let mut entries: HashMap<i32, i32> = HashMap::new();

    for _op in 0..total_ops {
        let (k, v) = (rng.gen(), rng.gen());
        table.insert(k, v).unwrap();
        entries.insert(k, v);
    }

    let mut entries = Vec::from_iter(entries);

    for _e in 0..entries.len() {
        let (k, v) = take_random(&mut entries, &mut rng);
        let got = table.get(&k).unwrap().unwrap();
        assert_eq!(got, v);
    }
}

#[test]
fn test_test_insert_load_factor() {
    let mut rng = rand::thread_rng();

    let total_ops = 80_000;
    let mut table = new_table(100_000, 0.8);
    let mut entries: HashMap<i32, i32> = HashMap::new();

    for _op in 0..total_ops {
        let (mut k, v): (i32, i32) = (rng.gen(), rng.gen());
        while entries.contains_key(&k) {
            k = rng.gen();
        }

        table.insert(k, v).unwrap();
        entries.insert(k, v);
    }

    let (mut k, v): (i32, i32) = (rng.gen(), rng.gen());
    while entries.contains_key(&k) {
        k = rng.gen();
    }

    let res = table.insert(k, v);
    assert!(res.is_err());
}

#[test]
fn test_test_insert_remove() {
    let mut rng = rand::thread_rng();

    let total_ops = 50_000;
    let mut dominus = new_table(100_000, 0.8);
    let mut entries: HashMap<i32, i32> = HashMap::new();

    for _op in 0..total_ops {
        let (k, v) = (rng.gen(), rng.gen());
        dominus.insert(k, v).unwrap();
        entries.insert(k, v);
    }

    let mut remaining = Vec::from_iter(entries.iter().map(|(a, b)| (*a, *b)));

    for _e in 0..remaining.len() {
        let (k, v) = take_random(&mut remaining, &mut rng);

        let removed = dominus.remove(&k).unwrap().unwrap();
        assert_eq!(removed, v);

        entries.remove(&k);
    }
    assert!(entries.is_empty());
}
