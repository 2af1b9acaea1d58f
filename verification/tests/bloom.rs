use tabula::bloom::BloomFilter;

// a filter for 100 keys with one false positive in a hundred
fn filter_for_100_keys() -> BloomFilter {
    BloomFilter::new(959, 7)
}

#[test]
fn a_new_filter_has_cleared_bits_for_its_size() {
    let filter = BloomFilter::new(95_851, 7);

    assert_eq!(filter.m, 95_851);
    assert_eq!(filter.k, 7);

    // bits vec must be large enough to hold m bits, rounded up to a whole byte
    assert_eq!(filter.bits.len(), 11_982);
    assert!(filter.bits.iter().all(|&byte| byte == 0));
}

#[test]
fn insert_sets_the_expected_bit_positions() {
    let mut filter = filter_for_100_keys();
    let key = b"hello";

    filter.insert(key);

    let h1 = BloomFilter::fnv_1a(key);
    let h2 = BloomFilter::djb2(key);

    for i in 0..filter.k {
        let combined = h1.wrapping_add((i as u64).wrapping_mul(h2));
        let pos = (combined % filter.m as u64) as usize;
        let byte_index = pos / 8;
        let bit_index = pos % 8;
        assert_ne!(
            filter.bits[byte_index] & (1 << bit_index),
            0,
            "expected bit {pos} to be set"
        );
    }
}

#[test]
fn insert_is_deterministic() {
    let mut filter = filter_for_100_keys();
    filter.insert(b"repeat-me");
    let after_first_insert = filter.bits.clone();

    filter.insert(b"repeat-me");
    assert_eq!(
        filter.bits, after_first_insert,
        "inserting the same key twice must not change which bits are set"
    );
}

#[test]
fn insert_different_keys_sets_more_bits() {
    let mut filter = filter_for_100_keys();
    let bits_before = filter.bits.clone();

    filter.insert(b"first-key");
    filter.insert(b"second-key");
    filter.insert(b"third-key");

    let total_bits_set: u32 = filter.bits.iter().map(|b| b.count_ones()).sum();
    let bits_before_set: u32 = bits_before.iter().map(|b| b.count_ones()).sum();
    assert!(total_bits_set > bits_before_set);
}

#[test]
fn hashes_match_published_values() {
    assert_eq!(BloomFilter::fnv_1a(b""), 0xcbf29ce484222325);
    assert_eq!(BloomFilter::fnv_1a(b"a"), 0xaf63dc4c8601ec8c);
    assert_eq!(BloomFilter::fnv_1a(b"foobar"), 0x85944171f73967e8);
    assert_eq!(BloomFilter::djb2(b""), 5381);
    assert_eq!(BloomFilter::djb2(b"a"), 33 * 5381 + 97);
}

#[test]
fn inserted_keys_are_always_admitted() {
    let mut filter = BloomFilter::new(4793, 7);
    for i in 0..500u32 {
        filter.insert(format!("key-{i}").as_bytes());
    }
    for i in 0..500u32 {
        assert!(filter.might_contain(format!("key-{i}").as_bytes()));
    }
    let false_positives = (0..1000u32)
        .filter(|i| filter.might_contain(format!("other-{i}").as_bytes()))
        .count();
    assert!(false_positives < 100);
}

#[test]
fn the_order_of_insertions_does_not_matter() {
    let mut a = filter_for_100_keys();
    let mut b = filter_for_100_keys();
    a.insert(b"x");
    a.insert(b"y");
    b.insert(b"y");
    b.insert(b"x");
    assert_eq!(a.bits, b.bits);
}

#[test]
fn an_empty_filter_denies_and_one_without_hashes_admits() {
    let filter = BloomFilter::new(16, 3);
    assert!(!filter.might_contain(b"anything"));
    let mut none = BloomFilter::new(0, 0);
    none.insert(b"ignored");
    assert_eq!(none.bits.len(), 0);
    assert!(none.might_contain(b"anything"));
}

#[test]
fn a_filter_survives_its_byte_form() {
    let mut filter = BloomFilter::new(21, 3);
    filter.insert(b"hello");
    let bytes = filter.to_bytes();
    assert_eq!(bytes.len(), 16 + 3);
    assert_eq!(bytes[..8].to_vec(), vec![3u8, 0, 0, 0, 0, 0, 0, 0]);
    assert_eq!(bytes[8..16].to_vec(), vec![21u8, 0, 0, 0, 0, 0, 0, 0]);
    let back = BloomFilter::from_bytes(&bytes).unwrap();
    assert_eq!(back.k, 3);
    assert_eq!(back.m, 21);
    assert_eq!(back.bits, filter.bits);
}

#[test]
fn bytes_without_a_filter_are_refused() {
    assert!(BloomFilter::from_bytes(b"short").is_none());
    let mut bytes = BloomFilter::new(21, 3).to_bytes();
    bytes.pop();
    assert!(BloomFilter::from_bytes(&bytes).is_none());
    let mut no_bits = vec![0u8; 16];
    no_bits[0] = 1;
    assert!(BloomFilter::from_bytes(&no_bits).is_none());
}
