use std::time::{Duration, Instant};
use timed_cache::DefaultCache;

fn key(parts: &[&str]) -> Vec<String> {
    parts.iter().map(|p| p.to_string()).collect()
}

fn wait(d: Duration) {
    let start = Instant::now();
    while start.elapsed() < d {
        std::hint::spin_loop();
    }
}

#[test]
fn test_set_and_get() {
    let mut cache = DefaultCache::new(1);
    cache.set(key(&["alice", "/data1", "read"]), false);
    assert!(cache.get(&key(&["alice", "/data1", "read"])) == Some(&false));
}

#[test]
fn test_set_ttl() {
    let mut cache = DefaultCache::new(1);
    cache.set_ttl(Duration::from_secs(2));

    cache.set(key(&["alice", "/data1", "read"]), false);

    wait(Duration::from_secs(1));
    assert!(cache.get(&key(&["alice", "/data1", "read"])) == Some(&false));

    wait(Duration::from_secs(2));
    assert!(!cache.has(&key(&["alice", "/data1", "read"])));
}

#[test]
fn test_capacity() {
    let mut cache = DefaultCache::new(1);
    cache.set(key(&["alice", "/data1", "read"]), false);
    cache.set(key(&["bob", "/data2", "write"]), false);
    assert!(!cache.has(&key(&["alice", "/data1", "read"])));
    assert!(cache.has(&key(&["bob", "/data2", "write"])));
}

#[test]
fn test_set_capacity() {
    let mut cache = DefaultCache::new(1);
    cache.set_capacity(2);
    cache.set(key(&["alice", "/data1", "read"]), false);
    cache.set(key(&["bob", "/data2", "write"]), false);
    cache.set(key(&["unknow", "/data3", "read_write"]), false);
    assert!(!cache.has(&key(&["alice", "/data1", "read"])));
    assert!(cache.has(&key(&["bob", "/data2", "write"])));
    assert!(cache.has(&key(&["unknow", "/data3", "read_write"])));
}
