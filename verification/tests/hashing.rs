use chained_hashmap::hash::{bucket_index, hash_key, FNV_OFFSET_BASIS, FNV_PRIME};
use chained_hashmap::key::{is_valid_key, keys_equal, KEY_TERMINATOR};
use chained_hashmap::load::{
    next_bucket_count, DEFAULT_BUCKETS, GROWTH_FACTOR, MAX_LOAD_DENOMINATOR, MAX_LOAD_NUMERATOR,
};
use chained_hashmap::{HashMapError, LoadFactor};

#[test]
fn fnv1a_constants() {
    assert_eq!(FNV_OFFSET_BASIS, 14695981039346656037);
    assert_eq!(FNV_PRIME, 1099511628211);
}

#[test]
fn fnv1a_of_empty_key_is_the_offset_basis() {
    assert_eq!(hash_key(""), 0xcbf29ce484222325);
}

#[test]
fn fnv1a_known_values() {
    assert_eq!(hash_key("a"), 0xaf63dc4c8601ec8c);
    assert_eq!(hash_key("b"), 0xaf63df4c8601f1a5);
    assert_eq!(hash_key("foobar"), 0x85944171f73967e8);
}

#[test]
fn fnv1a_one_round_by_hand() {
    let expected = (FNV_OFFSET_BASIS ^ 0x61).wrapping_mul(FNV_PRIME);
    assert_eq!(hash_key("a"), expected);
    let second = (expected ^ 0x62).wrapping_mul(FNV_PRIME);
    assert_eq!(hash_key("ab"), second);
}

#[test]
fn fnv1a_hashes_the_utf8_bytes() {
    // U+00E9 is the two bytes C3 A9
    let mut expected = FNV_OFFSET_BASIS;
    for byte in [0xc3u64, 0xa9u64] {
        expected = (expected ^ byte).wrapping_mul(FNV_PRIME);
    }
    assert_eq!(hash_key("é"), expected);
}

#[test]
fn same_key_same_hash() {
    for i in 0..100 {
        let key = i.to_string();
        assert_eq!(hash_key(&key), hash_key(&key.clone()));
    }
}

#[test]
fn bucket_index_is_the_remainder() {
    assert_eq!(bucket_index(0, 8), 0);
    assert_eq!(bucket_index(17, 8), 1);
    assert_eq!(bucket_index(17, 1), 0);
    assert_eq!(bucket_index(0xaf63dc4c8601ec8c, 8), 4);
    assert_eq!(bucket_index(0xaf63dc4c8601ec8c, 16), 12);
    assert_eq!(bucket_index(u64::MAX, 10), 5);
    assert_eq!(bucket_index(u64::MAX, usize::MAX), (u64::MAX % (usize::MAX as u64)) as usize);
}

#[test]
fn terminator_is_the_zero_byte() {
    assert_eq!(KEY_TERMINATOR, 0);
}

#[test]
fn valid_keys() {
    assert!(is_valid_key(""));
    assert!(is_valid_key("foo"));
    assert!(is_valid_key("with space and \n newline"));
    assert!(is_valid_key("日本語"));
    assert!(is_valid_key("\u{1}"));
}

#[test]
fn invalid_keys() {
    assert!(!is_valid_key("\0"));
    assert!(!is_valid_key("\0foo"));
    assert!(!is_valid_key("fo\0o"));
    assert!(!is_valid_key("foo\0"));
    assert!(!is_valid_key("日本\0語"));
}

#[test]
fn key_equality() {
    assert!(keys_equal("", ""));
    assert!(keys_equal("foo", "foo"));
    assert!(keys_equal("日本語", "日本語"));
    assert!(!keys_equal("foo", "fo"));
    assert!(!keys_equal("fo", "foo"));
    assert!(!keys_equal("foo", "fop"));
    assert!(!keys_equal("foo", "Foo"));
    assert!(!keys_equal("", "a"));
    assert!(!keys_equal("e\u{301}", "\u{e9}"));
}

#[test]
fn policy_constants() {
    assert_eq!(DEFAULT_BUCKETS, 8);
    assert_eq!(GROWTH_FACTOR, 2);
    assert_eq!(MAX_LOAD_NUMERATOR, 3);
    assert_eq!(MAX_LOAD_DENOMINATOR, 4);
}

#[test]
fn load_factor_limit() {
    assert!(!LoadFactor { numerator: 0, denominator: 1 }.exceeds_limit());
    assert!(!LoadFactor { numerator: 3, denominator: 4 }.exceeds_limit());
    assert!(!LoadFactor { numerator: 6, denominator: 8 }.exceeds_limit());
    assert!(LoadFactor { numerator: 7, denominator: 8 }.exceeds_limit());
    assert!(LoadFactor { numerator: 1, denominator: 1 }.exceeds_limit());
    assert!(LoadFactor { numerator: 1, denominator: 0 }.exceeds_limit());
    assert!(!LoadFactor { numerator: 0, denominator: 0 }.exceeds_limit());
    assert!(LoadFactor { numerator: usize::MAX, denominator: usize::MAX }.exceeds_limit());
    assert!(!LoadFactor { numerator: usize::MAX / 4 * 3, denominator: usize::MAX }.exceeds_limit());
}

#[test]
fn next_bucket_count_follows_the_growth_rule() {
    assert_eq!(next_bucket_count(0, 0), Ok(8));
    assert_eq!(next_bucket_count(8, 0), Ok(8));
    assert_eq!(next_bucket_count(8, 5), Ok(8));
    assert_eq!(next_bucket_count(8, 6), Ok(16));
    assert_eq!(next_bucket_count(16, 11), Ok(16));
    assert_eq!(next_bucket_count(16, 12), Ok(32));
    assert_eq!(next_bucket_count(1, 0), Ok(2));
    assert_eq!(next_bucket_count(4, 2), Ok(4));
    assert_eq!(next_bucket_count(4, 3), Ok(8));
}

#[test]
fn next_bucket_count_fails_where_doubling_cannot_be_represented() {
    let half = usize::MAX / 2;
    assert_eq!(next_bucket_count(half, half), Ok(half * 2));
    assert_eq!(next_bucket_count(half + 1, half + 1), Err(HashMapError::OutOfMemory));
    assert_eq!(next_bucket_count(usize::MAX, usize::MAX), Err(HashMapError::OutOfMemory));
    assert_eq!(next_bucket_count(usize::MAX, usize::MAX / 4 * 3), Ok(usize::MAX));
    assert_eq!(next_bucket_count(usize::MAX, usize::MAX / 4 * 3 + 2), Err(HashMapError::OutOfMemory));
    assert_eq!(next_bucket_count(usize::MAX, 0), Ok(usize::MAX));
}
