//! The record's fixed-capacity NUL-terminated buffers and its readers.

use execsnoop::args::Args;
use execsnoop::record::{
    store_str, Event, ARGSIZE, DEFAULT_MAX_ARGS, TASK_COMM_LEN, TOTAL_MAX_ARGS, UID_ALL,
};

#[test]
fn empty_event_sentinels() {
    let ev = Event::empty();
    assert_eq!(ev.pid, -1);
    assert_eq!(ev.ppid, -1);
    assert_eq!(ev.uid, 0);
    assert_eq!(ev.retval, -1);
    assert_eq!(ev.args_count, 0);
    assert_eq!(ev.comm, vec![0u8; TASK_COMM_LEN]);
    assert_eq!(ev.args.len(), TOTAL_MAX_ARGS as usize);
    assert!(ev.args.iter().all(|a| *a == vec![0u8; ARGSIZE]));
}

#[test]
fn comm_reads_up_to_terminator() {
    let mut ev = Event::empty();
    ev.comm[..3].copy_from_slice(b"ls\0");
    assert_eq!(ev.comm().unwrap(), b"ls".to_vec());
}

#[test]
fn comm_without_terminator_is_malformed() {
    let mut ev = Event::empty();
    ev.comm = vec![b'x'; TASK_COMM_LEN];
    assert!(ev.comm().is_none());
}

#[test]
fn args_reads_populated_slots_only() {
    let mut ev = Event::empty();
    ev.args[0][..4].copy_from_slice(b"cat\0");
    ev.args[1][..3].copy_from_slice(b"-n\0");
    // a later, unpopulated slot may hold anything; it is not read
    ev.args[2] = vec![b'x'; ARGSIZE];
    ev.args_count = 2;
    let args = ev.args().unwrap();
    assert_eq!(args, vec![b"cat".to_vec(), b"-n".to_vec()]);
}

#[test]
fn args_with_malformed_slot_is_none() {
    let mut ev = Event::empty();
    ev.args[0] = vec![b'x'; ARGSIZE];
    ev.args_count = 1;
    assert!(ev.args().is_none());
}

#[test]
fn store_str_truncates_and_terminates() {
    let short = store_str(&b"ab".to_vec(), 8);
    assert_eq!(short, b"ab\0\0\0\0\0\0".to_vec());
    let exact = store_str(&b"abcdefg".to_vec(), 8);
    assert_eq!(exact, b"abcdefg\0".to_vec());
    let long = store_str(&b"abcdefgh".to_vec(), 8);
    assert_eq!(long, b"abcdefg\0".to_vec());
}

#[test]
fn default_args_and_config() {
    let a = Args::new();
    assert_eq!(a.uid, UID_ALL);
    assert_eq!(a.max_args, DEFAULT_MAX_ARGS);
    assert!(!a.fails);
    assert!(a.name.is_none());
    let c = a.config();
    assert_eq!(c.targ_uid, UID_ALL);
    assert_eq!(c.max_args, DEFAULT_MAX_ARGS);
    assert!(!c.include_failed);
}
