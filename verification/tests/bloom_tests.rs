use chain_demo::bloom::{BloomFilter, KMBloomFilter, SeededBloomFilter};

fn item(n: u64) -> Vec<u8> {
    n.to_le_bytes().to_vec()
}

#[test]
fn inserted_items_are_contained() {
    let mut f = SeededBloomFilter::new(1000, 1, 100).unwrap();
    for n in 0..50u64 {
        f.insert(&item(n));
    }
    for n in 0..50u64 {
        assert!(f.contains(&item(n)));
    }
}

#[test]
fn km_inserted_items_are_contained() {
    let mut f = KMBloomFilter::new(1000, 1, 100).unwrap();
    for n in 0..50u64 {
        f.insert(&item(n));
    }
    for n in 0..50u64 {
        assert!(f.contains(&item(n)));
    }
}

#[test]
fn union_contains_both_sides() {
    let mut a = SeededBloomFilter::new(1000, 1, 100).unwrap();
    let mut b = SeededBloomFilter::new(1000, 1, 100).unwrap();
    a.insert(&item(1));
    a.insert(&item(2));
    b.insert(&item(3));
    b.insert(&item(4));
    let u = a.union(&b).unwrap();
    for n in 1..5u64 {
        assert!(u.contains(&item(n)));
    }
}

#[test]
fn intersect_implies_both_sides() {
    let mut a = SeededBloomFilter::new(1000, 1, 100).unwrap();
    let mut b = SeededBloomFilter::new(1000, 1, 100).unwrap();
    for n in 0..20u64 {
        a.insert(&item(n));
    }
    for n in 10..30u64 {
        b.insert(&item(n));
    }
    let x = a.intersect(&b).unwrap();
    for n in 0..30u64 {
        if x.contains(&item(n)) {
            assert!(a.contains(&item(n)));
            assert!(b.contains(&item(n)));
        }
    }
}

#[test]
fn mismatched_configurations_are_refused() {
    let a = SeededBloomFilter::new(1000, 1, 100).unwrap();
    let b = SeededBloomFilter::new(2000, 1, 100).unwrap();
    assert!(!a.eq_configuration(&b));
    assert!(a.union(&b).is_err());
    assert!(a.intersect(&b).is_err());
}

#[test]
fn zero_capacity_is_refused() {
    assert!(SeededBloomFilter::new(0, 1, 100).is_err());
    assert!(KMBloomFilter::new(0, 1, 100).is_err());
    assert!(SeededBloomFilter::new(100, 0, 100).is_err());
    assert!(SeededBloomFilter::new(100, 100, 100).is_err());
}
