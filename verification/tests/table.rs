//! The correlation table's insert-if-absent, lookup and release semantics.

use execsnoop::record::Event;
use execsnoop::table::ExecTable;

#[test]
fn begin_duplicate_rejected() {
    let mut table = ExecTable::new();
    assert!(table.begin(42, Event::empty()));
    // a second begin with no intervening end fails the call
    assert!(!table.begin(42, Event::empty()));
    assert_eq!(table.len(), 1);
}

#[test]
fn end_then_get_not_found() {
    let mut table = ExecTable::new();
    assert!(table.begin(42, Event::empty()));
    assert!(table.get(42).is_some());
    table.end(42);
    assert!(table.get(42).is_none());
    assert_eq!(table.len(), 0);
}

#[test]
fn end_allows_fresh_begin() {
    let mut table = ExecTable::new();
    assert!(table.begin(42, Event::empty()));
    table.end(42);
    assert!(table.begin(42, Event::empty()));
}

#[test]
fn get_returns_stored_record() {
    let mut table = ExecTable::new();
    let mut ev = Event::empty();
    ev.pid = 42;
    ev.uid = 1000;
    assert!(table.begin(42, ev));
    let stored = table.get(42).unwrap();
    assert_eq!(stored.pid, 42);
    assert_eq!(stored.uid, 1000);
    assert_eq!(stored.retval, -1);
}

#[test]
fn take_removes_and_returns() {
    let mut table = ExecTable::new();
    let mut ev = Event::empty();
    ev.pid = 9;
    assert!(table.begin(9, ev));
    let taken = table.take(9).unwrap();
    assert_eq!(taken.pid, 9);
    assert!(table.take(9).is_none());
}

#[test]
fn end_of_absent_pid_is_noop() {
    let mut table = ExecTable::new();
    table.end(42);
    assert_eq!(table.len(), 0);
}

#[test]
fn distinct_pids_coexist() {
    let mut table = ExecTable::new();
    assert!(table.begin(1, Event::empty()));
    assert!(table.begin(2, Event::empty()));
    assert!(table.begin(3, Event::empty()));
    assert_eq!(table.len(), 3);
    table.end(2);
    assert!(table.contains(1));
    assert!(!table.contains(2));
    assert!(table.contains(3));
}
