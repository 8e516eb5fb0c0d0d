use hashtable::adaptive_hashtable::AdaptiveHashtable;
use hashtable::batch_hashtable::BatchHashtable;
use hashtable::hashtable::Hashtable;
use hashtable::table0::Table0;
use rand::RngExt;

#[test]
fn adaptive_trivial_keys() {
    // five short keys, two of them updated a second time
    let mut t = AdaptiveHashtable::<u64>::new();
    let keys: [&[u8]; 5] = [&[], &[0], &[1], &[0, 0], &[1, 2]];
    for k in keys.iter() {
        match t.insert(k, 1) {
            Ok(_) => {}
            Err(_) => panic!("key unexpectedly present"),
        }
    }
    for k in [&[] as &[u8], &[1, 2]].iter() {
        match t.insert(k, 1) {
            Ok(_) => panic!("key unexpectedly absent"),
            Err(v) => *v += 1,
        }
    }
    assert_eq!(t.len(), 5);
    assert_eq!(t.get(&[]).copied(), Some(2));
    assert_eq!(t.get(&[0]).copied(), Some(1));
    assert_eq!(t.get(&[1]).copied(), Some(1));
    assert_eq!(t.get(&[0, 0]).copied(), Some(1));
    assert_eq!(t.get(&[1, 2]).copied(), Some(2));
    // the zero-tailed keys are diverted to the fallback backend; the rest
    // live in the two-byte table
    assert_eq!(t.encoding.len, 3);
    assert_eq!(t.inline0.len, 0);
    assert_eq!(t.inline1.len, 0);
    assert_eq!(t.inline2.len, 0);
    assert_eq!(t.fallback.len, 2);
}

#[test]
fn adaptive_inline_boundaries() {
    // three distinct keys of each boundary length, nonzero final byte
    let mut t = AdaptiveHashtable::<u64>::new();
    let lengths = [8usize, 9, 16, 17, 24];
    let mut inputs: Vec<Vec<u8>> = Vec::new();
    for &len in lengths.iter() {
        for variant in 1u8..=3 {
            let mut key = vec![variant; len];
            key[len - 1] = variant;
            key[0] = len as u8;
            inputs.push(key);
        }
    }
    for key in inputs.iter() {
        match t.insert(key, 1) {
            Ok(_) => {}
            Err(_) => panic!("duplicate key"),
        }
    }
    assert_eq!(t.inline0.len, 3);
    assert_eq!(t.inline1.len, 6);
    assert_eq!(t.inline2.len, 6);
    assert_eq!(t.fallback.len, 0);
    assert_eq!(t.encoding.len, 0);
    let entries = t.iter();
    assert_eq!(entries.len(), 15);
    for (key, value) in entries.iter() {
        assert!(inputs.iter().any(|k| k == key));
        assert_eq!(*value, 1);
    }
}

#[test]
fn adaptive_zero_tail_diversion() {
    // a trailing zero byte sends a key to the fallback backend
    let mut t = AdaptiveHashtable::<u64>::new();
    let a: &[u8] = &[0x41];
    let b: &[u8] = &[0x41, 0x00];
    let c: &[u8] = &[0x41, 0x00, 0x00, 0x00, 0x00, 0x00, 0x00, 0x00];
    for k in [a, b, c].iter() {
        match t.insert(k, 7) {
            Ok(_) => {}
            Err(_) => panic!("keys must be distinct"),
        }
    }
    assert_eq!(t.len(), 3);
    assert_eq!(t.encoding.len, 1);
    assert_eq!(t.fallback.len, 2);
    assert_eq!(t.get(a).copied(), Some(7));
    assert_eq!(t.get(b).copied(), Some(7));
    assert_eq!(t.get(c).copied(), Some(7));
}

#[test]
fn table0_growth_stability() {
    // a thousand keys through many growths keep their values
    let mut t = Table0::<u64, u64>::with_capacity(8);
    for k in 1u64..=1000 {
        t.reserve_one();
        match t.insert(k, 1) {
            Ok(_) => {}
            Err(_) => panic!("duplicate key"),
        }
    }
    assert_eq!(t.len(), 1000);
    let cap = t.capacity();
    assert!(cap >= 2048);
    assert!(cap.is_power_of_two());
    for k in 1u64..=1000 {
        assert_eq!(t.get(&k).copied(), Some(1));
    }
    let entries = t.iter();
    assert_eq!(entries.len(), 1000);
    let mut sum = 0u64;
    let mut seen = std::collections::HashSet::new();
    for (k, v) in entries.iter() {
        assert!(seen.insert(*k));
        sum += *v;
    }
    assert_eq!(sum, 1000);
}

#[test]
fn batch_vs_scalar_equivalence() {
    // the batch path and a scalar loop agree on a million random counts
    let n = 1usize << 20;
    let mut sequence = vec![0u64; n];
    let mut rng = rand::rng();
    for s in sequence.iter_mut() {
        *s = rng.random_range(0..1u64 << 12);
    }
    let mut scalar = Hashtable::<u64, u64>::new();
    for &s in sequence.iter() {
        match scalar.insert(s, 1) {
            Ok(_) => {}
            Err(v) => *v += 1,
        }
    }
    let mut batch_table = BatchHashtable::<u64, u64>::new();
    let mut batch = batch_table.batch_update();
    for &s in sequence.iter() {
        batch.push(&mut batch_table, s, 1);
    }
    batch.flush(&mut batch_table);
    assert_eq!(scalar.len(), batch_table.len());
    let mut sum = 0u64;
    for (key, value) in batch_table.iter().iter() {
        assert_eq!(scalar.get(key).copied(), Some(*value));
        sum += *value;
    }
    assert_eq!(sum, n as u64);
}

#[test]
fn merge_matches_full_build() {
    // merging two half-streams equals building from the whole stream
    let keys: Vec<u64> = (0..10000u64).map(|i| (i * 2654435761) % 4096).collect();
    let mut full = Hashtable::<u64, u64>::new();
    for &k in keys.iter() {
        match full.insert(k, 1) {
            Ok(_) => {}
            Err(v) => *v += 1,
        }
    }
    let mut first = Hashtable::<u64, u64>::new();
    for &k in keys[..5000].iter() {
        match first.insert(k, 1) {
            Ok(_) => {}
            Err(v) => *v += 1,
        }
    }
    let mut second = Hashtable::<u64, u64>::new();
    for &k in keys[5000..].iter() {
        match second.insert(k, 1) {
            Ok(_) => {}
            Err(v) => *v += 1,
        }
    }
    first.merge(second);
    assert_eq!(first.len(), full.len());
    for (k, v) in full.iter().iter() {
        assert_eq!(first.get(k).copied(), Some(*v));
    }
}
