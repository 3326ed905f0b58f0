use std::time::{Duration, Instant};
use timed_cache::DefaultCache;

fn key(parts: &[&str]) -> Vec<String> {
    parts.iter().map(|p| p.to_string()).collect()
}

fn pause(d: Duration) {
    let start = Instant::now();
    while start.elapsed() < d {
        std::hint::spin_loop();
    }
}

#[test]
fn get_returns_written_value() {
    let mut cache = DefaultCache::new(4);
    cache.set(key(&["alice", "/data1", "read"]), true);
    cache.set(key(&["bob", "/data2", "write"]), false);
    assert_eq!(cache.get(&key(&["alice", "/data1", "read"])), Some(&true));
    assert_eq!(cache.get(&key(&["bob", "/data2", "write"])), Some(&false));
}

#[test]
fn get_and_has_on_missing_key() {
    let mut cache = DefaultCache::new(2);
    assert_eq!(cache.get(&key(&["alice"])), None);
    assert!(!cache.has(&key(&["alice"])));
    cache.set(key(&["alice"]), true);
    assert_eq!(cache.get(&key(&["bob"])), None);
    assert!(!cache.has(&key(&["bob"])));
    assert!(cache.has(&key(&["alice"])));
}

#[test]
fn overwrite_keeps_only_new_value() {
    let mut cache = DefaultCache::new(2);
    cache.set(key(&["alice", "/data1", "read"]), false);
    cache.set(key(&["alice", "/data1", "read"]), true);
    assert_eq!(cache.get(&key(&["alice", "/data1", "read"])), Some(&true));
}

#[test]
fn overwrite_takes_no_extra_room() {
    let mut cache = DefaultCache::new(2);
    cache.set(key(&["a"]), false);
    cache.set(key(&["b"]), false);
    cache.set(key(&["b"]), true);
    assert!(cache.has(&key(&["a"])));
    assert_eq!(cache.get(&key(&["b"])), Some(&true));
}

#[test]
fn overwrite_makes_entry_newest() {
    let mut cache = DefaultCache::new(2);
    cache.set(key(&["a"]), false);
    cache.set(key(&["b"]), false);
    cache.set(key(&["a"]), true);
    cache.set(key(&["c"]), false);
    assert!(!cache.has(&key(&["b"])));
    assert_eq!(cache.get(&key(&["a"])), Some(&true));
    assert!(cache.has(&key(&["c"])));
}

#[test]
fn evicted_key_stays_absent() {
    let mut cache = DefaultCache::new(1);
    cache.set(key(&["a"]), true);
    cache.set(key(&["b"]), true);
    assert!(!cache.has(&key(&["a"])));
    cache.set(key(&["c"]), true);
    cache.set_capacity(3);
    assert!(!cache.has(&key(&["a"])));
    assert_eq!(cache.get(&key(&["a"])), None);
}

#[test]
fn shrinking_capacity_evicts_oldest_at_once() {
    let mut cache = DefaultCache::new(3);
    cache.set(key(&["a"]), true);
    cache.set(key(&["b"]), true);
    cache.set(key(&["c"]), true);
    cache.set_capacity(1);
    assert!(!cache.has(&key(&["a"])));
    assert!(!cache.has(&key(&["b"])));
    assert!(cache.has(&key(&["c"])));
    cache.set(key(&["d"]), false);
    assert!(!cache.has(&key(&["c"])));
    assert!(cache.has(&key(&["d"])));
}

#[test]
fn growing_capacity_keeps_entries() {
    let mut cache = DefaultCache::new(2);
    cache.set(key(&["a"]), true);
    cache.set(key(&["b"]), true);
    cache.set_capacity(5);
    cache.set(key(&["c"]), true);
    assert!(cache.has(&key(&["a"])));
    assert!(cache.has(&key(&["b"])));
    assert!(cache.has(&key(&["c"])));
}

#[test]
fn clear_removes_everything() {
    let mut cache = DefaultCache::new(3);
    cache.set(key(&["a"]), true);
    cache.set(key(&["b"]), false);
    cache.clear();
    assert!(!cache.has(&key(&["a"])));
    assert!(!cache.has(&key(&["b"])));
    assert_eq!(cache.get(&key(&["b"])), None);
    cache.set(key(&["a"]), false);
    assert_eq!(cache.get(&key(&["a"])), Some(&false));
}

#[test]
fn default_ttl_is_two_minutes() {
    let cache = DefaultCache::new(1);
    assert_eq!(cache.ttl(), Duration::from_secs(120));
}

#[test]
fn ttl_change_spares_stored_entries() {
    let mut cache = DefaultCache::new(2);
    cache.set(key(&["long"]), true);
    cache.set_ttl(Duration::from_millis(100));
    cache.set(key(&["short"]), true);
    pause(Duration::from_millis(300));
    assert!(cache.has(&key(&["long"])));
    assert!(!cache.has(&key(&["short"])));
    assert_eq!(cache.get(&key(&["short"])), None);
}

#[test]
fn expired_entry_can_be_written_again() {
    let mut cache = DefaultCache::new(1);
    cache.set_ttl(Duration::from_millis(50));
    cache.set(key(&["a"]), false);
    pause(Duration::from_millis(150));
    assert!(!cache.has(&key(&["a"])));
    cache.set_ttl(Duration::from_secs(60));
    cache.set(key(&["a"]), true);
    assert_eq!(cache.get(&key(&["a"])), Some(&true));
}

#[test]
fn zero_ttl_expires_promptly() {
    let mut cache = DefaultCache::new(1);
    cache.set_ttl(Duration::from_secs(0));
    cache.set(key(&["a"]), true);
    pause(Duration::from_millis(5));
    assert!(!cache.has(&key(&["a"])));
}

#[test]
fn read_counts_as_use() {
    let mut cache = DefaultCache::new(2);
    cache.set(key(&["a"]), true);
    cache.set(key(&["b"]), true);
    assert_eq!(cache.get(&key(&["a"])), Some(&true));
    cache.set(key(&["d"]), false);
    assert!(cache.has(&key(&["a"])));
    assert!(!cache.has(&key(&["b"])));
    assert!(cache.has(&key(&["d"])));
}

#[test]
fn has_counts_as_use() {
    let mut cache = DefaultCache::new(3);
    cache.set(key(&["a"]), true);
    cache.set(key(&["b"]), true);
    cache.set(key(&["c"]), true);
    assert!(cache.has(&key(&["a"])));
    cache.set_capacity(1);
    assert!(cache.has(&key(&["a"])));
    assert!(!cache.has(&key(&["b"])));
    assert!(!cache.has(&key(&["c"])));
}

#[test]
fn expired_entries_do_not_take_room() {
    let mut cache = DefaultCache::new(2);
    cache.set(key(&["a"]), true);
    cache.set_ttl(Duration::from_secs(0));
    cache.set(key(&["b"]), true);
    pause(Duration::from_millis(20));
    cache.set_ttl(Duration::from_secs(60));
    cache.set(key(&["d"]), false);
    assert!(cache.has(&key(&["a"])));
    assert!(!cache.has(&key(&["b"])));
    assert_eq!(cache.get(&key(&["d"])), Some(&false));
}

#[test]
fn shrinking_drops_expired_before_live() {
    let mut cache = DefaultCache::new(2);
    cache.set(key(&["a"]), true);
    cache.set_ttl(Duration::from_secs(0));
    cache.set(key(&["b"]), true);
    pause(Duration::from_millis(20));
    cache.set_capacity(1);
    assert!(cache.has(&key(&["a"])));
    assert!(!cache.has(&key(&["b"])));
}

#[test]
fn failed_read_does_not_refresh() {
    let mut cache = DefaultCache::new(2);
    cache.set(key(&["a"]), true);
    cache.set(key(&["b"]), true);
    assert_eq!(cache.get(&key(&["z"])), None);
    cache.set(key(&["c"]), true);
    assert!(!cache.has(&key(&["a"])));
    assert!(cache.has(&key(&["b"])));
    assert!(cache.has(&key(&["c"])));
}

#[test]
fn eviction_spares_survivors_expiry() {
    let mut cache = DefaultCache::new(2);
    cache.set_ttl(Duration::from_millis(300));
    cache.set(key(&["a"]), true);
    cache.set_ttl(Duration::from_secs(60));
    cache.set(key(&["b"]), true);
    cache.set(key(&["c"]), true);
    assert!(!cache.has(&key(&["a"])));
    pause(Duration::from_millis(400));
    assert!(cache.has(&key(&["b"])));
    assert!(cache.has(&key(&["c"])));
}
