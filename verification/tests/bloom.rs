use yggdrasil::bloom::{
    base_hashes, decode_bloom, encode_bloom, location, BloomError, BloomFilter, BLOOM_FILTER_BITS,
    BLOOM_FILTER_FLAGS, BLOOM_FILTER_K, BLOOM_FILTER_U64S,
};

#[test]
fn test_basic_add_test() {
    let mut filter = BloomFilter::new();
    let key = b"hello world";

    assert!(!filter.test(key));
    filter.add(key);
    assert!(filter.test(key));
}

#[test]
fn test_false_positive_rate() {
    let mut filter = BloomFilter::new();

    for i in 0..1000u32 {
        let key = i.to_be_bytes();
        filter.add(&key);
    }

    for i in 0..1000u32 {
        let key = i.to_be_bytes();
        assert!(filter.test(&key), "Key {} should be found", i);
    }

    let mut false_positives = 0;
    for i in 1000..2000u32 {
        let key = i.to_be_bytes();
        if filter.test(&key) {
            false_positives += 1;
        }
    }

    let fp_rate = false_positives as f64 / 1000.0;
    println!("False positive rate: {}", fp_rate);
    assert!(fp_rate < 0.05, "False positive rate {} too high", fp_rate);
}

#[test]
fn test_merge() {
    let mut filter1 = BloomFilter::new();
    let mut filter2 = BloomFilter::new();

    filter1.add(b"key1");
    filter2.add(b"key2");

    filter1.merge(&filter2);

    assert!(filter1.test(b"key1"));
    assert!(filter1.test(b"key2"));
}

#[test]
fn test_encode_decode() {
    let mut filter = BloomFilter::new();
    filter.add(b"test key");
    filter.add(b"another key");

    let encoded = encode_bloom(filter.as_raw());
    let decoded = decode_bloom(&encoded).unwrap();

    assert_eq!(filter.as_raw(), &decoded);

    let restored = BloomFilter::from_raw(decoded);
    assert!(restored.test(b"test key"));
    assert!(restored.test(b"another key"));
}

#[test]
fn test_empty_filter_encode() {
    let filter = BloomFilter::new();
    let encoded = encode_bloom(filter.as_raw());
    let decoded = decode_bloom(&encoded).unwrap();
    assert_eq!(filter.as_raw(), &decoded);
}

#[test]
fn test_full_filter_encode() {
    let filter = BloomFilter {
        bits: [u64::MAX; BLOOM_FILTER_U64S],
    };
    let encoded = encode_bloom(filter.as_raw());
    let decoded = decode_bloom(&encoded).unwrap();
    assert_eq!(filter.as_raw(), &decoded);
}

#[test]
fn test_count_ones() {
    let mut filter = BloomFilter::new();
    assert_eq!(filter.count_ones(), 0);

    filter.add(b"test");
    assert!(filter.count_ones() > 0);
    assert!(filter.count_ones() <= (BLOOM_FILTER_K as u32));
}

#[test]
fn test_known_values_single_key() {
    let key = [42u8; 32];
    let mut filter = BloomFilter::new();
    filter.add(&key);
    let expected = hex::decode("fdbfffbfff7ffe7ffffffffcffffffff0000000000000000000000000000000020000000000000000000000000080000200000000000000000000000000080000000200000000000020000000000000000020000000000000200000000000000").unwrap();
    let expected_filter = BloomFilter::from_raw(decode_bloom(&expected).unwrap());

    let encoded = encode_bloom(filter.as_raw());
    assert_eq!(hex::encode(&encoded), hex::encode(&expected));
    assert!(expected_filter.equal(&filter), "Filter not equals the expected filter!");

    assert!(filter.test(&key), "Key should be present after adding");

    let decoded = BloomFilter::from_raw(decode_bloom(&encoded).unwrap());
    assert!(filter.equal(&decoded), "Round-trip should preserve filter");
    assert!(decoded.test(&key), "Key should be present after round-trip");
}

#[test]
fn empty_and_full_filters_have_only_flags() {
    let mut empty = vec![0xffu8; BLOOM_FILTER_FLAGS];
    empty.extend(vec![0u8; BLOOM_FILTER_FLAGS]);
    assert_eq!(encode_bloom(BloomFilter::new().as_raw()), empty);

    let mut full = vec![0u8; BLOOM_FILTER_FLAGS];
    full.extend(vec![0xffu8; BLOOM_FILTER_FLAGS]);
    assert_eq!(encode_bloom(&[u64::MAX; BLOOM_FILTER_U64S]), full);
}

#[test]
fn words_are_written_high_byte_first() {
    let mut bits = [0u64; BLOOM_FILTER_U64S];
    bits[0] = 0x0102_0304_0506_0708;
    let encoded = encode_bloom(&bits);
    assert_eq!(encoded.len(), 2 * BLOOM_FILTER_FLAGS + 8);
    assert_eq!(encoded[0], 0x7f);
    assert_eq!(&encoded[2 * BLOOM_FILTER_FLAGS..], &[1, 2, 3, 4, 5, 6, 7, 8]);
}

#[test]
fn damaged_filters_are_refused() {
    let good = encode_bloom(&[5u64; BLOOM_FILTER_U64S]);
    assert!(decode_bloom(&good).is_ok());
    assert!(matches!(decode_bloom(&good[..31]), Err(BloomError::Decode(_))));
    assert!(matches!(decode_bloom(&good[..good.len() - 1]), Err(BloomError::Decode(_))));
    let mut long = good.clone();
    long.push(0);
    assert!(matches!(decode_bloom(&long), Err(BloomError::Decode(_))));
    let both = vec![0xffu8; 2 * BLOOM_FILTER_FLAGS];
    assert!(matches!(decode_bloom(&both), Err(BloomError::Decode(_))));
}

#[test]
fn hashes_depend_on_the_data() {
    let a = base_hashes(b"a");
    let b = base_hashes(b"b");
    assert_ne!(a, b);
    assert_eq!(a, base_hashes(b"a"));
    for i in 0..BLOOM_FILTER_K {
        assert!(location(&a, i, BLOOM_FILTER_BITS) < BLOOM_FILTER_BITS);
    }
}

#[test]
fn a_key_sets_at_most_eight_bits() {
    let mut filter = BloomFilter::new();
    for i in 0..200u32 {
        let before = filter.count_ones();
        filter.add(&i.to_be_bytes());
        assert!(filter.count_ones() >= before);
        assert!(filter.count_ones() <= before + 8);
    }
}

#[test]
fn an_encoding_has_eight_bytes_for_each_mixed_word() {
    let mut bits = [0u64; BLOOM_FILTER_U64S];
    bits[0] = u64::MAX;
    bits[1] = 1;
    bits[5] = u64::MAX - 1;
    bits[127] = 0x8000_0000_0000_0000;
    let encoded = encode_bloom(&bits);
    assert_eq!(encoded.len(), 32 + 8 * 3);
    assert_eq!(decode_bloom(&encoded).unwrap(), bits);
}
