use memcache::storage::{Cache, CacheError, Value};

fn item(data: &[u8]) -> Value {
    Value::new(data.to_vec(), 0, 0)
}

#[test]
fn defaults_of_new() {
    let mut cache = Cache::new(10);
    assert_eq!(cache.len(), 0);
    let long_key = vec![b'k'; 250];
    assert_eq!(cache.set(long_key.clone(), item(b"v"), 0), Ok(()));
    let too_long = vec![b'k'; 251];
    assert_eq!(cache.set(too_long, item(b"v"), 0), Err(CacheError::KeyTooLong));
    let big = vec![0u8; 1048576];
    assert_eq!(cache.set(b"big".to_vec(), Value::new(big.clone(), 0, 0), 0), Ok(()));
    let bigger = vec![0u8; 1048577];
    assert_eq!(cache.set(b"bigger".to_vec(), Value::new(bigger, 0, 0), 0), Err(CacheError::ValueTooLong));
}

#[test]
fn set_then_get_returns_payload_and_flags() {
    let mut cache = Cache::new(4);
    cache.set(b"x".to_vec(), Value::new(b"one".to_vec(), 3, 0), 10).unwrap();
    cache.set(b"y".to_vec(), item(b"other"), 11).unwrap();
    cache.set(b"x".to_vec(), Value::new(b"two".to_vec(), 7, 0), 12).unwrap();
    let v = cache.get(b"x", 13).unwrap();
    assert_eq!(v.data, b"two".to_vec());
    assert_eq!(v.flags, 7);
    assert_eq!(v.atime, 13);
}

#[test]
fn get_missing_key() {
    let mut cache = Cache::new(4);
    assert_eq!(cache.get(b"nope", 0), Err(CacheError::KeyNotFound));
}

#[test]
fn get_key_too_long() {
    let mut cache = Cache::new(4);
    cache.with_key_maxlen(2);
    assert_eq!(cache.get(b"abc", 0), Err(CacheError::KeyTooLong));
    assert_eq!(cache.contains_key(b"abc", 0), Err(CacheError::KeyTooLong));
}

#[test]
fn value_too_long_with_key_in_limit() {
    let mut cache = Cache::new(4);
    cache.with_value_maxlen(2);
    assert_eq!(cache.set(b"k".to_vec(), item(b"abc"), 0), Err(CacheError::ValueTooLong));
    assert_eq!(cache.set(b"k".to_vec(), item(b"ab"), 0), Ok(()));
    cache.with_key_maxlen(0);
    assert_eq!(cache.set(b"k".to_vec(), item(b"abc"), 0), Err(CacheError::KeyTooLong));
}

#[test]
fn capacity_gate_and_overwrite() {
    let mut cache = Cache::new(1);
    assert_eq!(cache.set(b"a".to_vec(), item(b"A"), 0), Ok(()));
    assert_eq!(cache.set(b"b".to_vec(), item(b"B"), 0), Err(CacheError::CapacityExceeded));
    assert_eq!(cache.set(b"a".to_vec(), item(b"Z"), 0), Ok(()));
    assert_eq!(cache.len(), 1);
    assert_eq!(cache.get(b"a", 0).unwrap().data, b"Z".to_vec());
}

#[test]
fn zero_capacity_refuses_all() {
    let mut cache = Cache::new(0);
    assert_eq!(cache.set(b"a".to_vec(), item(b"A"), 0), Err(CacheError::CapacityExceeded));
}

#[test]
fn expiry_by_exptime_evicts() {
    let t0: u64 = 1_000_000;
    let mut cache = Cache::new(4);
    cache.set(b"x".to_vec(), Value::new(b"A".to_vec(), 0, t0 + 1), t0).unwrap();
    assert_eq!(cache.len(), 1);
    assert!(cache.get(b"x", t0).is_ok());
    assert_eq!(cache.get(b"x", t0 + 2), Err(CacheError::KeyNotFound));
    assert_eq!(cache.len(), 0);
}

#[test]
fn exptime_reached_exactly_is_dead() {
    let mut cache = Cache::new(4);
    cache.set(b"x".to_vec(), Value::new(b"A".to_vec(), 0, 50), 0).unwrap();
    assert_eq!(cache.get(b"x", 50), Err(CacheError::KeyNotFound));
}

#[test]
fn idle_lifetime_expiry_and_touch() {
    let mut cache = Cache::new(4);
    cache.with_item_lifetime(10);
    cache.set(b"x".to_vec(), item(b"A"), 100).unwrap();
    // alive while atime + lifetime > now; each read moves atime
    assert!(cache.get(b"x", 109).is_ok());
    assert!(cache.get(b"x", 118).is_ok());
    assert_eq!(cache.contains_key(b"x", 128), Ok(false));
    assert_eq!(cache.len(), 0);
}

#[test]
fn negative_lifetime_never_expires() {
    let mut cache = Cache::new(4);
    cache.set(b"x".to_vec(), item(b"A"), 0).unwrap();
    assert_eq!(cache.contains_key(b"x", u64::MAX), Ok(true));
}

#[test]
fn dead_get_shrinks_len_by_one() {
    let mut cache = Cache::new(4);
    cache.with_item_lifetime(0);
    cache.set(b"a".to_vec(), item(b"A"), 5).unwrap();
    cache.set(b"b".to_vec(), Value::new(b"B".to_vec(), 0, 100), 5).unwrap();
    assert_eq!(cache.len(), 2);
    assert_eq!(cache.get(b"a", 5), Err(CacheError::KeyNotFound));
    assert_eq!(cache.len(), 1);
    assert!(cache.get(b"b", 6).is_ok());
}
