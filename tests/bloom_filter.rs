use data_structures::bloom_filter::BloomFilter;

#[test]
fn test_check_inclusion() {
    let mut filter = BloomFilter::new();
    filter.add(&12);
    filter.add(&13);
    filter.add(&14);
    filter.add(&15);
    assert!(filter.check(&12));
}

#[test]
fn test_check_exclusion() {
    let mut filter = BloomFilter::new();
    filter.add(&12);
    filter.add(&22);
    filter.add(&32);
    assert!(!filter.check(&42));
}

#[test]
fn empty_filter_holds_nothing() {
    let filter = BloomFilter::new();
    assert!(!filter.check(&7));
    assert!(!filter.check(&0));
}

#[test]
fn added_items_are_always_found() {
    let mut filter = BloomFilter::new();
    for v in [1u64, 100, 12345] {
        filter.add(&v);
        assert!(filter.check(&v));
    }
    assert!(filter.check(&1));
    assert!(filter.check(&100));
}
