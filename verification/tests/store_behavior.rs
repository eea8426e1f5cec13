use innumerable::{CounterStore, Registry};

#[test]
fn count_of_starts_at_zero() {
    let s = CounterStore::new();
    assert_eq!(s.count_of("nothing", 0), 0);
    assert_eq!(s.count_of("nothing", 7), 0);
}

#[test]
fn record_increments_per_key() {
    let mut s = CounterStore::new();
    s.record("a", 0);
    s.record("a", 0);
    s.record("a", 1);
    assert_eq!(s.count_of("a", 0), 2);
    assert_eq!(s.count_of("a", 1), 1);
    assert_eq!(s.count_of("b", 0), 0);
}

#[test]
fn record_default_is_index_zero() {
    let mut s = CounterStore::new();
    s.record_default("a");
    assert_eq!(s.count_of("a", 0), 1);
    assert_eq!(s.count_of("a", 1), 0);
}

#[test]
fn snapshot_is_frozen() {
    let mut s = CounterStore::new();
    s.record("a", 0);
    let frozen = s.snapshot();
    s.record("a", 0);
    assert_eq!(frozen.count_of("a", 0), 1);
    assert_eq!(s.count_of("a", 0), 2);
}

#[test]
fn entries_list_each_key_once() {
    let mut s = CounterStore::new();
    s.record("a", 0);
    s.record("a", 1);
    s.record("b", 0);
    s.record("a", 1);
    let mut listed = s.entries();
    listed.sort();
    let expected = vec![
        ("a".to_string(), 0i64, 1u64),
        ("a".to_string(), 1i64, 2u64),
        ("b".to_string(), 0i64, 1u64),
    ];
    assert_eq!(listed, expected);
}

#[test]
fn registry_grows_by_registration() {
    let mut reg = Registry::new();
    assert_eq!(reg.len(), 0);
    reg.register(CounterStore::new());
    assert_eq!(reg.len(), 1);
    reg.register(CounterStore::new());
    assert_eq!(reg.len(), 2);
    assert_eq!(reg.enumerate().len(), 2);
}
