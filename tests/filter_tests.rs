use bloomheap::bloomfilter::BloomFilter;
use bloomheap::ConfigError;
use std::collections::hash_map::DefaultHasher;

#[test]
fn filter_test_basic() {
    let mut filter = BloomFilter::default_with_settings(16, 4).unwrap();

    // filter shouldn't fire any value
    assert!((0..100).all(|e| filter.never_occured(&e)));

    filter.add(&2);
    filter.add(&4);

    assert!(!filter.never_occured(&2));
    assert!(!filter.never_occured(&4));

    // this may fail if h(3334) & (h(2) | h(4)) != 0 where h is the multi-bitmask
    assert!(filter.never_occured(&3334));

    for i in 10..20 {
        filter.add(&i);
    }
    for i in 10..20 {
        assert!(!filter.never_occured(&i));
    }
}

#[test]
fn filter_end_to_end_small() {
    let mut filter = BloomFilter::default_with_settings(4, 4).unwrap();
    assert_eq!(filter.storage_size(), 4);
    assert_eq!(filter.num_hashers(), 4);
    assert!((1000..1100).all(|e: u64| filter.never_occured(&e)));
    filter.add(&2);
    filter.add(&4);
    assert!(!filter.never_occured(&2));
    assert!(!filter.never_occured(&4));
}

#[test]
fn filter_digests_differ_between_elements() {
    let mut filter = BloomFilter::default_with_settings(16, 1).unwrap();
    filter.add(&2u32);
    assert_eq!(filter.bits_set(), 1);
    assert!((0..100u32).filter(|e| *e != 2).any(|e| filter.never_occured(&e)));
}

#[test]
fn filter_zero_settings_are_refused() {
    assert_eq!(BloomFilter::default_with_settings(0, 4).err(), Some(ConfigError::ZeroBytes));
    assert_eq!(BloomFilter::default_with_settings(4, 0).err(), Some(ConfigError::ZeroHashers));
    assert_eq!(BloomFilter::default_with_settings(0, 0).err(), Some(ConfigError::ZeroBytes));
    let none: Vec<DefaultHasher> = Vec::new();
    assert_eq!(BloomFilter::from_initalized(vec![0u8; 2], none).err(), Some(ConfigError::ZeroHashers));
    assert_eq!(
        BloomFilter::from_initalized(Vec::new(), vec![DefaultHasher::new()]).err(),
        Some(ConfigError::ZeroBytes)
    );
}

#[test]
fn filter_digests_select_bits_modulo_bit_count() {
    let mut filter = BloomFilter::from_initalized(vec![0u8; 2], vec![DefaultHasher::new()]).unwrap();
    assert_eq!(filter.storage_size(), 2);
    assert!(filter.never_occured_digests(&[3, 17]));
    filter.add_digests(&[3, 17]);
    assert!(!filter.never_occured_digests(&[3, 17]));
    // 19 and 35 reduce to bit 3 of 16, 33 to bit 1
    assert!(!filter.never_occured_digests(&[19, 35, 33]));
    assert!(filter.never_occured_digests(&[3, 5]));
    assert!(filter.never_occured_digests(&[2]));
    assert_eq!(filter.bits_set(), 2);
}

#[test]
fn filter_fill_count_never_drops() {
    let mut filter = BloomFilter::from_initalized(vec![0u8; 1], vec![DefaultHasher::new()]).unwrap();
    assert_eq!(filter.bits_set(), 0);
    filter.add_digests(&[0, 7]);
    assert_eq!(filter.bits_set(), 2);
    filter.add_digests(&[0, 15]);
    assert_eq!(filter.bits_set(), 2);
    filter.add_digests(&[4, 12, 1]);
    assert_eq!(filter.bits_set(), 4);
    filter.add_digests(&[0, 1, 2, 3, 4, 5, 6, 7]);
    assert_eq!(filter.bits_set(), 8);
}

#[test]
fn filter_over_given_storage_keeps_its_bits() {
    let filter = BloomFilter::from_initalized(vec![0x80u8, 0x01], vec![DefaultHasher::new()]).unwrap();
    assert_eq!(filter.bits_set(), 2);
    assert!(!filter.never_occured_digests(&[0, 15]));
    assert!(filter.never_occured_digests(&[1]));
}

#[test]
fn filter_bit_chars_msb_first() {
    let filter = BloomFilter::from_initalized(vec![0x81u8, 0x40], vec![DefaultHasher::new()]).unwrap();
    let text: String = filter.bit_chars().iter().collect();
    assert_eq!(text, "1000000101000000");
}
