use dedup::cache::Cache;
use rand::distributions::Alphanumeric;
use rand::{thread_rng, Rng};

fn rand_string(len: usize) -> String {
    thread_rng()
        .sample_iter(&Alphanumeric)
        .take(len)
        .map(char::from)
        .collect()
}

#[test]
fn test_basic_cache() {
    let mut cache = Cache::new(0);
    assert!(cache.insert("hello".as_bytes()));
    assert!(cache.insert("world".as_bytes()));

    assert!(cache.contains("hello".as_bytes()));
    assert!(cache.contains("world".as_bytes()));
    assert!(!cache.contains("other".as_bytes()));
}

#[test]
fn test_limit_memory() {
    let mut cache = Cache::new(1024);
    for _ in 0..100 {
        cache.insert(rand_string(32).as_bytes());
    }
    assert!(cache.memo_len() < 100);
    assert!(cache.has_disk());
    assert!(cache.disk_len() > 0);
}

#[test]
fn insert_is_idempotent() {
    let mut cache = Cache::new(0);
    assert!(cache.insert("again".as_bytes()));
    assert!(!cache.insert("again".as_bytes()));
}

#[test]
fn insert_is_idempotent_across_spill() {
    // Budget 8: the second insert of "abcd" re-spills whatever accumulated,
    // but is still not reported as newly seen.
    let mut cache = Cache::new(8);
    assert!(cache.insert("abcd".as_bytes()));
    assert!(cache.insert("efgh".as_bytes()));
    assert!(!cache.insert("abcd".as_bytes()));
}

#[test]
fn no_false_negatives_across_spills() {
    let mut cache = Cache::new(10);
    assert!(cache.insert("hello".as_bytes()));
    assert!(cache.insert("worldworld".as_bytes()));
    // "hello" was drained to the compact tier by the second insert.
    assert!(cache.memo_len() == 1);
    assert!(cache.has_disk());
    assert!(cache.contains("hello".as_bytes()));
    assert!(cache.contains("worldworld".as_bytes()));
    assert!(!cache.contains("absent".as_bytes()));
}

#[test]
fn budget_triggers_migration() {
    let mut cache = Cache::new(64);
    cache.insert(rand_string(32).as_bytes());
    assert!(!cache.has_disk());
    assert!(cache.memo_len() == 1);
    // 32 accumulated + 32 incoming reaches the budget of 64: spill first.
    cache.insert(rand_string(32).as_bytes());
    assert!(cache.has_disk());
    assert!(cache.memo_len() == 1);
}

#[test]
fn single_chunk_item_uses_one_key() {
    let mut cache = Cache::new(1);
    // 0 accumulated + 1 byte reaches the budget of 1: an (empty) spill creates
    // the compact tier, and the item's single key lands there too.
    assert!(cache.insert("a".as_bytes()));
    assert!(cache.has_disk());
    assert!(cache.disk_len() == 1);
    assert!(cache.contains("a".as_bytes()));
    assert!(cache.insert("b".as_bytes()));
    assert!(cache.disk_len() == 2);
    assert!(cache.contains("b".as_bytes()));
}

#[test]
fn three_hundred_byte_item_uses_three_keys() {
    let item = vec![0x41u8; 300];
    let mut cache = Cache::new(1);
    assert!(cache.insert(&item));
    assert!(cache.has_disk());
    assert!(cache.disk_len() == 3);
    assert!(cache.contains(&item));
    assert!(!cache.contains(&item[..299]));
}

#[test]
fn unlimited_budget_never_spills() {
    let mut cache = Cache::new(0);
    for i in 0..100 {
        assert!(cache.insert(format!("{}-{}", rand_string(32), i).as_bytes()));
    }
    assert!(!cache.has_disk());
    assert!(cache.memo_len() == 100);
}

#[test]
fn empty_item_round_trip() {
    let mut cache = Cache::new(0);
    assert!(!cache.contains(b"".as_slice()));
    assert!(cache.insert(b"".as_slice()));
    assert!(cache.contains(b"".as_slice()));
}

#[test]
fn chunk_codec_empty_item_has_no_keys() {
    let keys = dedup::chunk::item_to_keys(b"".as_slice());
    assert!(keys.is_empty());
}

#[test]
fn chunk_codec_short_item_key_layout() {
    let keys = dedup::chunk::item_to_keys("ab".as_bytes());
    assert_eq!(keys.len(), 1);
    let key = &keys[0];
    assert_eq!(key.len(), 128);
    assert_eq!(key[0], b'a');
    assert_eq!(key[1], b'b');
    for j in 2..127 {
        assert_eq!(key[j], 0);
    }
    assert_eq!(key[127], 0);
}

#[test]
fn chunk_codec_three_hundred_byte_layout() {
    let item = vec![0x41u8; 300];
    let keys = dedup::chunk::item_to_keys(&item);
    assert_eq!(keys.len(), 3);
    for (ord, key) in keys.iter().enumerate() {
        assert_eq!(key.len(), 128);
        assert_eq!(key[127], ord as u8);
    }
    // Chunks of 127, 127 and 46 bytes, the last zero-padded.
    assert!(keys[0][..127].iter().all(|&b| b == 0x41));
    assert!(keys[1][..127].iter().all(|&b| b == 0x41));
    assert!(keys[2][..46].iter().all(|&b| b == 0x41));
    assert!(keys[2][46..127].iter().all(|&b| b == 0));
}

#[test]
fn zero_padding_collision_gives_false_positive_after_spill() {
    // Once keys live in the compact tier, a short item is indistinguishable
    // from a longer item whose extra bytes are the padding zeros: an accepted
    // precision trade-off of the fixed-width key encoding.
    let mut cache = Cache::new(1);
    assert!(cache.insert(b"a\0".as_slice()));
    assert!(cache.has_disk());
    assert!(cache.contains(b"a".as_slice()));
}

#[test]
fn chunk_codec_ordinal_wraps_after_256_chunks() {
    let item = vec![7u8; 127 * 257];
    let keys = dedup::chunk::item_to_keys(&item);
    assert_eq!(keys.len(), 257);
    assert_eq!(keys[255][127], 255);
    assert_eq!(keys[256][127], 0);
}

#[test]
fn exact_tier_tracks_items_and_bytes() {
    let mut tier = dedup::exact::ExactTier::new();
    assert_eq!(tier.len(), 0);
    assert_eq!(tier.total_bytes(), 0);
    assert!(tier.insert("one".as_bytes()));
    assert!(tier.insert("three".as_bytes()));
    assert!(!tier.insert("one".as_bytes()));
    assert_eq!(tier.len(), 2);
    assert_eq!(tier.total_bytes(), 8);
    assert!(tier.contains("one".as_bytes()));
    assert!(!tier.contains("two".as_bytes()));
    let drained = tier.drain();
    assert_eq!(drained.len(), 2);
    assert_eq!(tier.len(), 0);
    assert_eq!(tier.total_bytes(), 0);
}

#[test]
fn compact_tier_insert_and_lookup() {
    let mut tier = dedup::compact::CompactTier::new();
    assert_eq!(tier.len(), 0);
    let key_a = {
        let mut k = vec![0u8; 128];
        k[0] = b'a';
        k
    };
    let key_b = {
        let mut k = vec![0u8; 128];
        k[0] = b'b';
        k
    };
    assert!(tier.insert_key(&key_a));
    assert!(!tier.insert_key(&key_a));
    assert!(tier.insert_key(&key_b));
    assert_eq!(tier.len(), 2);
    assert!(tier.contains_key(&key_a));
    assert!(tier.contains_key(&key_b));
    let mut key_c = vec![0u8; 128];
    key_c[0] = b'c';
    assert!(!tier.contains_key(&key_c));
}
