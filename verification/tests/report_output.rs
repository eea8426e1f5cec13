use innumerable::report::report_string;
use innumerable::{CounterStore, Registry};

fn registry_of(store: CounterStore) -> Registry {
    let mut reg = Registry::new();
    reg.register(store);
    reg
}

#[test]
fn suppresses_breakdown_for_default_only() {
    let mut s = CounterStore::new();
    s.record_default("x");
    s.record_default("x");
    s.record_default("x");
    let reg = registry_of(s);
    assert_eq!(report_string(&reg), "x: 3\n");
}

#[test]
fn breakdown_with_default_and_other() {
    let mut s = CounterStore::new();
    s.record("y", 0);
    s.record("y", 1);
    s.record("y", 1);
    s.record("y", 1);
    let reg = registry_of(s);
    assert_eq!(report_string(&reg), "y: 4\ny[0]: 25.0%\ny[1]: 75.0%\n");
}

#[test]
fn breakdown_for_single_nondefault() {
    let mut s = CounterStore::new();
    s.record("z", 5);
    s.record("z", 5);
    let reg = registry_of(s);
    assert_eq!(report_string(&reg), "z: 2\nz[5]: 100.0%\n");
}

#[test]
fn empty_report_is_empty() {
    let reg = Registry::new();
    assert_eq!(report_string(&reg), "");
}

#[test]
fn repeated_reports_identical() {
    let mut s = CounterStore::new();
    s.record("e", 2);
    s.record("e", -2);
    s.record_default("f");
    let reg = registry_of(s);
    let first = report_string(&reg);
    let second = report_string(&reg);
    assert_eq!(first, second);
}

#[test]
fn default_index_equivalence() {
    let mut a = CounterStore::new();
    a.record_default("d");
    let mut b = CounterStore::new();
    b.record("d", 0);
    let ra = registry_of(a);
    let rb = registry_of(b);
    assert_eq!(report_string(&ra), report_string(&rb));
    assert_eq!(report_string(&ra), "d: 1\n");
}

#[test]
fn sums_across_stores() {
    let mut a = CounterStore::new();
    a.record("a", 0);
    let mut b = CounterStore::new();
    b.record("a", 0);
    let mut reg = Registry::new();
    reg.register(a);
    reg.register(b);
    assert_eq!(report_string(&reg), "a: 2\n");
}

#[test]
fn interleaving_does_not_change_totals() {
    let mut a1 = CounterStore::new();
    let mut b1 = CounterStore::new();
    a1.record("k", 1);
    b1.record("k", 1);
    a1.record("k", 2);
    b1.record("k", 1);
    let mut r1 = Registry::new();
    r1.register(a1);
    r1.register(b1);

    let mut a2 = CounterStore::new();
    let mut b2 = CounterStore::new();
    b2.record("k", 1);
    b2.record("k", 1);
    a2.record("k", 2);
    a2.record("k", 1);
    let mut r2 = Registry::new();
    r2.register(a2);
    r2.register(b2);

    assert_eq!(report_string(&r1), report_string(&r2));
    assert_eq!(report_string(&r1), "k: 4\nk[1]: 75.0%\nk[2]: 25.0%\n");
}

#[test]
fn names_sorted_lexicographically() {
    let mut s = CounterStore::new();
    s.record_default("beta");
    s.record_default("alpha");
    s.record_default("beta");
    let reg = registry_of(s);
    assert_eq!(report_string(&reg), "alpha: 1\nbeta: 2\n");
}

#[test]
fn negative_index_breakdown() {
    let mut s = CounterStore::new();
    s.record("n", -1);
    let reg = registry_of(s);
    assert_eq!(report_string(&reg), "n: 1\nn[-1]: 100.0%\n");
}

#[test]
fn thirds_round_to_nearest_tenth() {
    let mut s = CounterStore::new();
    s.record("r", 0);
    s.record("r", 1);
    s.record("r", 1);
    let reg = registry_of(s);
    assert_eq!(report_string(&reg), "r: 3\nr[0]: 33.3%\nr[1]: 66.7%\n");
}

#[test]
fn halves_round_to_even_tenth() {
    let mut s = CounterStore::new();
    s.record("t", 0);
    for _ in 0..15 {
        s.record("t", 1);
    }
    let reg = registry_of(s);
    assert_eq!(report_string(&reg), "t: 16\nt[0]: 6.2%\nt[1]: 93.8%\n");
}

#[test]
fn retained_after_recording_stops() {
    let mut early = CounterStore::new();
    early.record_default("old_event");
    let mut reg = Registry::new();
    reg.register(early);
    let mut late = CounterStore::new();
    late.record_default("new_event");
    reg.register(late);
    assert_eq!(report_string(&reg), "new_event: 1\nold_event: 1\n");
}
