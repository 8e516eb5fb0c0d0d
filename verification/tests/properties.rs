use hashtable::adaptive_hashtable::{AdaptiveHashtable, FallbackKey};
use hashtable::table0::Table0;
use hashtable::batch::Operations;
use hashtable::encoding::EncodingHashtable;
use hashtable::experimental::extendible_hashtable::ExtendibleHashtable;
use hashtable::experimental::stack_hashtable::StackHashtable;
use hashtable::fallback::FallbackHashtable;
use hashtable::hash::{fast_hash_bytes, fast_hash_u64};
use hashtable::hashtable::Hashtable;
use hashtable::inline::{InlineHashtable, LaneKey};
use hashtable::inline_ref::InlineRef;
use hashtable::table1::Table1;
use hashtable::table2::Table2;
use hashtable::twolevel_hashtable::TwolevelHashtable;
use hashtable::traits::WithHash;
use hashtable::utils::{extract_byte, read_le};

#[test]
fn hash_is_deterministic() {
    let bytes = b"the quick brown fox";
    assert_eq!(fast_hash_bytes(bytes), fast_hash_bytes(bytes));
    assert_eq!(fast_hash_u64(12345), fast_hash_u64(12345));
    assert_eq!(
        FallbackKey::new(bytes).hash_value(),
        fast_hash_bytes(bytes)
    );
}

#[test]
fn read_le_round_trips() {
    let bytes = [0x11u8, 0x22, 0x33, 0x44, 0x55, 0x66, 0x77, 0x88, 0x99];
    assert_eq!(read_le(&bytes, 0, 1), 0x11);
    assert_eq!(read_le(&bytes, 0, 2), 0x2211);
    assert_eq!(read_le(&bytes, 1, 4), 0x55443322);
    assert_eq!(read_le(&bytes, 0, 8), 0x8877665544332211);
    let word = read_le(&bytes, 0, 8);
    for i in 0..8 {
        assert_eq!(extract_byte(word, i), bytes[i]);
    }
}

#[test]
fn get_returns_what_insert_updates() {
    // the existing-entry reference and a later lookup see the same value
    let mut t = Hashtable::<u64, u64>::new();
    assert!(t.is_empty());
    match t.insert(5, 10) {
        Ok(v) => assert_eq!(*v, 10),
        Err(_) => panic!("fresh table"),
    }
    match t.insert(5, 99) {
        Ok(_) => panic!("key present"),
        Err(v) => {
            assert_eq!(*v, 10);
            *v = 11;
        }
    }
    assert_eq!(t.get(&5).copied(), Some(11));
    assert_eq!(t.get(&6).copied(), None);
    match t.get_mut(&5) {
        Some(v) => *v = 12,
        None => panic!("key present"),
    }
    assert_eq!(t.get(&5).copied(), Some(12));
    assert_eq!(t.len(), 1);
    assert_eq!(t.capacity(), 256);
}

#[test]
fn zero_key_uses_escape_slot() {
    let mut t = Hashtable::<u64, u64>::new();
    match t.insert(0, 3) {
        Ok(v) => assert_eq!(*v, 3),
        Err(_) => panic!("fresh table"),
    }
    match t.insert(0, 4) {
        Ok(_) => panic!("zero key present"),
        Err(v) => *v += 1,
    }
    assert_eq!(t.get(&0).copied(), Some(4));
    assert_eq!(t.len(), 1);
    let entries = t.iter();
    assert_eq!(entries.len(), 1);
    assert_eq!(entries[0].0, 0);
    assert_eq!(entries[0].1, 4);
}

#[test]
fn iteration_emits_each_entry_once() {
    let mut t = Hashtable::<u64, u64>::new();
    for k in 0u64..100 {
        match t.insert(k, k + 1) {
            Ok(_) => {}
            Err(_) => panic!("distinct keys"),
        }
    }
    let entries = t.iter();
    assert_eq!(entries.len(), 100);
    let mut seen = std::collections::HashSet::new();
    for (k, v) in entries.iter() {
        assert!(seen.insert(*k));
        assert_eq!(*v, *k + 1);
    }
}

#[test]
fn table1_direct_addressing() {
    let mut t = Table1::<u64>::new();
    assert_eq!(t.capacity(), 65536);
    match t.insert([3, 200], 9) {
        Ok(v) => assert_eq!(*v, 9),
        Err(_) => panic!("fresh table"),
    }
    assert_eq!(t.len(), 1);
    assert_eq!(t.get([3, 200]).copied(), Some(9));
    assert_eq!(t.get([200, 3]).copied(), None);
    match t.get_mut([3, 200]) {
        Some(v) => *v = 10,
        None => panic!("present"),
    }
    let entries = t.iter();
    assert_eq!(entries.len(), 1);
    assert_eq!(entries[0].0, [3, 200]);
    assert_eq!(entries[0].1, 10);
}

#[test]
fn encoding_table_counts() {
    let mut t = EncodingHashtable::new();
    match t.insert([1, 2]) {
        Ok(v) => *v = 5,
        Err(_) => panic!("fresh table"),
    }
    match t.insert([1, 2]) {
        Ok(_) => panic!("present"),
        Err(v) => *v += 1,
    }
    assert_eq!(t.len(), 1);
    assert_eq!(t.get([1, 2]), Some(6));
    assert_eq!(t.iter()[0], ([1, 2], 6));
}

#[test]
fn table2_keeps_escape_in_len() {
    let mut t = Table2::<u64, u64>::new();
    assert_eq!(t.capacity(), 256);
    match t.insert(0, 1) {
        Ok(_) => {}
        Err(_) => panic!("fresh table"),
    }
    match t.insert(7, 2) {
        Ok(_) => {}
        Err(_) => panic!("fresh table"),
    }
    assert_eq!(t.len(), 2);
    t.grow();
    assert_eq!(t.len(), 2);
    assert!(t.capacity() >= 512);
    assert_eq!(t.get(&0).copied(), Some(1));
    assert_eq!(t.get(&7).copied(), Some(2));
    assert_eq!(t.iter().len(), 2);
}

#[test]
fn extendible_table_splits_under_load() {
    let mut t = ExtendibleHashtable::<u64, u64>::new();
    assert_eq!(t.count(), 3);
    assert_eq!(t.buckets(), 1);
    for k in 1u64..=40000 {
        match t.insert(k, k + 7) {
            Ok(_) => {}
            Err(_) => panic!("distinct keys"),
        }
    }
    assert_eq!(t.len(), 40000);
    assert!(t.buckets() > 1);
    for k in 1u64..=40000 {
        assert_eq!(t.get(&k).copied(), Some(k + 7));
    }
    assert_eq!(t.get(&99999).copied(), None);
    match t.insert(7, 0) {
        Ok(_) => panic!("present"),
        Err(v) => assert_eq!(*v, 14),
    }
}

#[test]
fn stack_table_small_capacity() {
    let mut t = StackHashtable::<u64, u64, 16>::new();
    for k in 1u64..=12 {
        match t.insert(k, k) {
            Ok(_) => {}
            Err(_) => panic!("distinct keys"),
        }
    }
    assert_eq!(t.len(), 12);
    for k in 1u64..=12 {
        assert_eq!(t.get(&k).copied(), Some(k));
    }
    assert_eq!(t.iter().len(), 12);
}

#[test]
fn inline_table_explicit_hash() {
    let mut t = InlineHashtable::<2>::new();
    let key = LaneKey::<2>::new(0x1122, 0x3344, 0);
    let h = hashtable::hash::fast_hash_lanes(&[0x1122, 0x3344]);
    match t.insert(key, h) {
        Ok(v) => *v = 3,
        Err(_) => panic!("fresh table"),
    }
    assert_eq!(t.len(), 1);
    assert_eq!(t.get(&key, h), Some(3));
    t.grow();
    assert_eq!(t.get(&key, h), Some(3));
}

#[test]
fn inline_ref_owns_short_strings() {
    let short = [1u8, 2, 3];
    let long = [9u8; 40];
    let a = InlineRef::new(&short);
    assert_eq!(a.as_ref(), &short);
    let b = InlineRef::new(&long);
    assert_eq!(b.as_ref(), &long[..]);
    assert!(InlineRef::new_owned(&short).is_some());
    assert!(InlineRef::new_owned(&long).is_none());
}

#[test]
fn fallback_table_owns_its_keys() {
    let mut t = FallbackHashtable::new();
    let key: Vec<u8> = (0u8..40).collect();
    let h = fast_hash_bytes(&key);
    match t.insert(&key, h) {
        Ok(v) => *v = 2,
        Err(_) => panic!("fresh table"),
    }
    match t.insert(&key, h) {
        Ok(_) => panic!("present"),
        Err(Some(v)) => *v += 1,
        Err(None) => panic!("not full"),
    }
    assert_eq!(t.len(), 1);
    assert_eq!(t.get(&key, h), Some(3));
    t.grow();
    assert_eq!(t.get(&key, h), Some(3));
    let entries = t.iter();
    assert_eq!(entries.len(), 1);
    assert_eq!(entries[0].0, key);
    assert_eq!(entries[0].1, 3);
}

#[test]
fn with_hash_keeps_key() {
    let w = WithHash::new(42u64);
    assert_eq!(w.key(), 42);
}

#[test]
fn reorder_compacts_finished_lanes() {
    // clear bits first, then set bits, both ascending
    let r = Operations::reorder(0b0110, 4);
    assert_eq!(r, vec![0, 3, 1, 2]);
    let r = Operations::reorder(0b00000000, 8);
    assert_eq!(r, vec![0, 1, 2, 3, 4, 5, 6, 7]);
    let r = Operations::reorder(0b1111, 4);
    assert_eq!(r, vec![0, 1, 2, 3]);
}

#[test]
fn conflict_detection_leftmost_wins() {
    let idx = vec![5u64, 7, 5, 7, 5];
    let mask = vec![true, true, true, false, true];
    let r = Operations::conflict_detection(&idx, &mask);
    assert_eq!(r, vec![true, true, false, false, false]);
    // a suppressed earlier lane still suppresses later ones this step
    let idx = vec![1u64, 1, 1];
    let mask = vec![true, true, true];
    let r = Operations::conflict_detection(&idx, &mask);
    assert_eq!(r, vec![true, false, false]);
}

#[test]
fn twolevel_shards_by_hash_prefix() {
    let mut t = TwolevelHashtable::<u64, u64>::new();
    for k in 0u64..200 {
        match t.insert(k, k * 2) {
            Ok(_) => {}
            Err(_) => panic!("distinct keys"),
        }
    }
    assert_eq!(t.len(), 200);
    assert!(!t.is_empty());
    assert!(t.capacity() >= 256 * 256);
    for k in 0u64..200 {
        assert_eq!(t.get(&k).copied(), Some(k * 2));
        match t.get_mut(&k) {
            Some(v) => *v += 1,
            None => panic!("present"),
        }
        assert_eq!(t.get(&k).copied(), Some(k * 2 + 1));
    }
    assert_eq!(t.get(&1000).copied(), None);
    let entries = t.iter();
    assert_eq!(entries.len(), 200);
    let mut seen = std::collections::HashSet::new();
    for (k, v) in entries.iter() {
        assert!(seen.insert(*k));
        assert_eq!(*v, *k * 2 + 1);
    }
}

#[test]
fn split_partitions_by_hash_bit() {
    let mut t = Table0::<u64, u64>::with_capacity(64);
    for k in 1u64..=20 {
        t.reserve_one();
        match t.insert(k, k) {
            Ok(_) => {}
            Err(_) => panic!("distinct keys"),
        }
    }
    let cap = t.capacity();
    let other = t.split(13);
    assert_eq!(t.capacity(), cap);
    assert_eq!(other.capacity(), cap);
    assert_eq!(t.len() + other.len(), 20);
    for k in 1u64..=20 {
        let selected = (hashtable::traits::Key::hash(&k) >> 13) & 1 != 0;
        if selected {
            assert_eq!(other.get(&k).copied(), Some(k));
            assert_eq!(t.get(&k).copied(), None);
        } else {
            assert_eq!(t.get(&k).copied(), Some(k));
            assert_eq!(other.get(&k).copied(), None);
        }
    }
}

#[test]
fn batch_insert_applies_pairs_in_order() {
    let mut t = Hashtable::<u64, u64>::new();
    let keys: Vec<u64> = vec![1, 2, 1, 0, 2, 1];
    let dels: Vec<u64> = vec![10, 20, 30, 5, 1, 1];
    t.batch_insert(&keys, &dels);
    assert_eq!(t.len(), 3);
    assert_eq!(t.get(&1).copied(), Some(41));
    assert_eq!(t.get(&2).copied(), Some(21));
    assert_eq!(t.get(&0).copied(), Some(5));
    // a second batch updates in place
    t.batch_insert(&vec![1], &vec![9]);
    assert_eq!(t.get(&1).copied(), Some(50));
}

#[test]
fn upsert_inserts_then_combines() {
    let mut t = Hashtable::<u64, u64>::new();
    t.upsert(9, 4);
    t.upsert(9, 6);
    assert_eq!(t.get(&9).copied(), Some(10));
}

#[test]
fn adaptive_long_keys_fall_back() {
    let mut t = AdaptiveHashtable::<u64>::new();
    let long = [7u8; 40];
    match t.insert(&long, 1) {
        Ok(_) => {}
        Err(_) => panic!("fresh table"),
    }
    assert_eq!(t.fallback.len, 1);
    assert_eq!(t.get(&long).copied(), Some(1));
    let entries = t.iter();
    assert_eq!(entries.len(), 1);
    assert_eq!(entries[0].0.as_slice(), &long[..]);
    assert_eq!(entries[0].1, 1);
}
