use rate_limiter::limiter::Options;
use rate_limiter::stores::MemoryStore;
use rate_limiter::stores::Store;
use rate_limiter::stores::StoreError;

fn opts(max: usize, window_seconds: usize) -> Options {
    Options { max, window_seconds }
}

#[test]
fn get_on_missing_key_is_absent() {
    let mut store = MemoryStore::new(opts(10, 60));
    assert_eq!(store.get("1.2.3.4", 100).unwrap(), None);
}

#[test]
fn update_then_get_returns_value_written() {
    let mut store = MemoryStore::new(opts(10, 60));
    store.update("1.2.3.4", 7, 100).unwrap();
    assert_eq!(store.get("1.2.3.4", 100).unwrap(), Some(7));
    store.update("1.2.3.4", 8, 101).unwrap();
    assert_eq!(store.get("1.2.3.4", 101).unwrap(), Some(8));
}

#[test]
fn update_preserves_window_start() {
    let mut store = MemoryStore::new(opts(10, 60));
    store.update("1.2.3.4", 1, 100).unwrap();
    store.update("1.2.3.4", 2, 150).unwrap();
    // The window still runs from the first write: live at 160, expired at 161.
    assert_eq!(store.get("1.2.3.4", 160).unwrap(), Some(2));
    assert_eq!(store.get("1.2.3.4", 161).unwrap(), None);
}

#[test]
fn record_lives_through_whole_window() {
    let mut store = MemoryStore::new(opts(10, 60));
    store.update("1.2.3.4", 3, 100).unwrap();
    assert_eq!(store.get("1.2.3.4", 159).unwrap(), Some(3));
    assert_eq!(store.get("1.2.3.4", 160).unwrap(), Some(3));
}

#[test]
fn expired_record_reads_absent_and_is_deleted() {
    let mut store = MemoryStore::new(opts(10, 60));
    store.update("1.2.3.4", 9, 100).unwrap();
    assert_eq!(store.get("1.2.3.4", 161).unwrap(), None);
    // The expired record was removed: a fresh write starts a new window.
    store.update("1.2.3.4", 1, 161).unwrap();
    assert_eq!(store.get("1.2.3.4", 221).unwrap(), Some(1));
    assert_eq!(store.get("1.2.3.4", 222).unwrap(), None);
}

#[test]
fn del_then_get_is_absent() {
    let mut store = MemoryStore::new(opts(10, 60));
    store.update("1.2.3.4", 5, 100).unwrap();
    store.del("1.2.3.4").unwrap();
    assert_eq!(store.get("1.2.3.4", 100).unwrap(), None);
}

#[test]
fn del_is_idempotent_on_missing_key() {
    let mut store = MemoryStore::new(opts(10, 60));
    assert!(store.del("5.6.7.8").is_ok());
    store.update("5.6.7.8", 2, 100).unwrap();
    store.del("5.6.7.8").unwrap();
    assert!(store.del("5.6.7.8").is_ok());
    assert_eq!(store.get("5.6.7.8", 100).unwrap(), None);
}

#[test]
fn distinct_keys_have_distinct_counters() {
    let mut store = MemoryStore::new(opts(10, 60));
    store.update("1.2.3.4", 4, 100).unwrap();
    store.update("5.6.7.8", 9, 100).unwrap();
    assert_eq!(store.get("1.2.3.4", 100).unwrap(), Some(4));
    assert_eq!(store.get("5.6.7.8", 100).unwrap(), Some(9));
    store.del("1.2.3.4").unwrap();
    assert_eq!(store.get("1.2.3.4", 100).unwrap(), None);
    assert_eq!(store.get("5.6.7.8", 100).unwrap(), Some(9));
}

#[test]
fn interleaved_reads_undercount_but_never_skip() {
    // Two requests read the counter before either writes: both see 0, both
    // write 1. The counter undercounts true concurrency, but no value is
    // ever skipped and none is negative.
    let mut store = MemoryStore::new(opts(10, 60));
    let first = store.get("1.2.3.4", 100).unwrap().unwrap_or(0);
    let second = store.get("1.2.3.4", 100).unwrap().unwrap_or(0);
    assert_eq!(first, 0);
    assert_eq!(second, 0);
    store.update("1.2.3.4", first + 1, 100).unwrap();
    store.update("1.2.3.4", second + 1, 100).unwrap();
    assert_eq!(store.get("1.2.3.4", 100).unwrap(), Some(1));
}

#[test]
fn store_error_carries_its_message() {
    let err = StoreError { msg: String::from("connection refused") };
    assert_eq!(err.msg, "connection refused");
}
