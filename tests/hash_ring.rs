use rkv::ring::HashRing;

#[test]
fn test_hash_ring() {
    let replicas = 8;
    let mut r: HashRing<i32> = HashRing::new(replicas);

    // empty
    assert_eq!(r.get(&0), None);

    // single bucket
    r.insert(0);
    assert_eq!(r.get(&42), Some(&0));

    let successors: Vec<i32> = r.successors(&99);
    let expected: Vec<_> = std::iter::repeat(0).take(replicas as usize).collect();
    assert_eq!(successors, expected);

    // empty
    r.remove(&0);
    assert_eq!(r.get(&0), None);

    // N buckets
    let n = 4;
    let buckets: Vec<_> = (0..n).collect();
    for bucket in &buckets {
        r.insert(*bucket);
    }
    assert_eq!(buckets.contains(r.get(&"foo").unwrap()), true);
    let successors: Vec<i32> = r.successors(&"bar");
    assert_eq!(successors.len(), buckets.len() * replicas as usize);
}

#[test]
fn empty_ring_has_no_bucket() {
    let r: HashRing<String> = HashRing::new(3);
    assert_eq!(r.get(&"anything"), None);
    assert_eq!(r.get(&vec![1u8, 2, 3]), None);
    assert!(r.successors(&7).is_empty());
}

#[test]
fn single_bucket_fills_every_successor() {
    let mut r: HashRing<String> = HashRing::new(5);
    r.insert("10.0.0.1:80".to_string());
    for item in ["a", "b", "zzz"] {
        let s = r.successors(&item);
        assert_eq!(s.len(), 5);
        assert!(s.iter().all(|b| b == "10.0.0.1:80"));
    }
    r.remove(&"10.0.0.1:80".to_string());
    assert!(r.successors(&"a").is_empty());
}

#[test]
fn reinsert_keeps_lookups() {
    let mut once: HashRing<i32> = HashRing::new(8);
    let mut twice: HashRing<i32> = HashRing::new(8);
    for b in 0..5 {
        once.insert(b);
        twice.insert(b);
    }
    twice.insert(3);
    for item in 0..100 {
        assert_eq!(once.get(&item), twice.get(&item));
        assert_eq!(once.successors(&item), twice.successors(&item));
    }
}

#[test]
fn successors_wrap_around_in_order() {
    let mut r: HashRing<i32> = HashRing::new(16);
    for b in 0..3 {
        r.insert(b);
    }
    let s = r.successors(&"key");
    assert_eq!(s.len(), 48);
    // A walk is a rotation of the walk from any other item.
    let t = r.successors(&"other key");
    let start = (0..t.len()).find(|&i| {
        (0..s.len()).all(|j| t[(i + j) % t.len()] == s[j])
    });
    assert!(start.is_some());
    assert_eq!(r.get(&"key"), Some(&s[0]));
}

#[test]
fn distinct_items_spread_over_buckets() {
    let mut r: HashRing<i32> = HashRing::new(32);
    for b in 0..4 {
        r.insert(b);
    }
    let mut seen = std::collections::HashSet::new();
    for item in 0..200 {
        seen.insert(*r.get(&item).unwrap());
    }
    assert!(seen.len() > 1);
}
