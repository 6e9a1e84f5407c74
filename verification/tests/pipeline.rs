//! End-to-end scenarios: entry probe, exit probe, delivery channel and
//! collector working together over one processor's stream.

use execsnoop::channel::Channel;
use execsnoop::collector::read_event_batch;
use execsnoop::probes::{execsnoop_enter, execsnoop_exit, Config};
use execsnoop::record::{Event, UID_ALL};
use execsnoop::table::ExecTable;

fn cfg_all() -> Config {
    Config { targ_uid: UID_ALL, max_args: 20, include_failed: false }
}

#[test]
fn delivered_success_all_filter() {
    let mut table = ExecTable::new();
    let mut chan = Channel::new(16);
    let cfg = cfg_all();
    let path = b"ls".to_vec();
    let tail = vec![b"-l".to_vec(), b"/tmp".to_vec()];
    let comm = b"ls".to_vec();

    let r = execsnoop_enter(&mut table, &cfg, 1000, 42, 7, &path, &tail);
    assert_eq!(r, 0);
    let r = execsnoop_exit(&mut table, &mut chan, &cfg, 1000, 42, &comm, 0);
    assert_eq!(r, 0);

    let (events, lost) = read_event_batch(&mut chan, 8);
    assert_eq!(lost, 0);
    assert_eq!(events.len(), 1);
    let ev = &events[0];
    assert_eq!(ev.pid, 42);
    assert_eq!(ev.ppid, 7);
    assert_eq!(ev.uid, 1000);
    assert!(ev.retval >= 0);
    assert_eq!(ev.args_count, 3);
    assert_eq!(ev.comm().unwrap(), b"ls".to_vec());
    let args = ev.args().unwrap();
    assert_eq!(args, vec![b"ls".to_vec(), b"-l".to_vec(), b"/tmp".to_vec()]);
}

#[test]
fn delivered_once_only() {
    let mut table = ExecTable::new();
    let mut chan = Channel::new(16);
    let cfg = cfg_all();
    let path = b"ls".to_vec();
    let tail: Vec<Vec<u8>> = Vec::new();
    let comm = b"ls".to_vec();

    execsnoop_enter(&mut table, &cfg, 1000, 42, 7, &path, &tail);
    execsnoop_exit(&mut table, &mut chan, &cfg, 1000, 42, &comm, 0);
    // a straggling second exit for the same pid finds nothing and emits nothing
    let r = execsnoop_exit(&mut table, &mut chan, &cfg, 1000, 42, &comm, 0);
    assert_eq!(r, 1);
    let (events, _) = read_event_batch(&mut chan, 8);
    assert_eq!(events.len(), 1);
}

#[test]
fn failed_exec_not_included() {
    let mut table = ExecTable::new();
    let mut chan = Channel::new(16);
    let cfg = cfg_all();
    let path = b"/no/such/path".to_vec();
    let tail: Vec<Vec<u8>> = Vec::new();
    let comm = b"ls".to_vec();

    execsnoop_enter(&mut table, &cfg, 1000, 42, 7, &path, &tail);
    let r = execsnoop_exit(&mut table, &mut chan, &cfg, 1000, 42, &comm, -2);
    assert_eq!(r, 0);
    assert_eq!(chan.lost_total(), 0);
    let (events, lost) = read_event_batch(&mut chan, 8);
    assert_eq!(events.len(), 0);
    assert_eq!(lost, 0);
}

#[test]
fn failed_exec_included() {
    let mut table = ExecTable::new();
    let mut chan = Channel::new(16);
    let cfg = Config { include_failed: true, ..cfg_all() };
    let path = b"/no/such/path".to_vec();
    let tail: Vec<Vec<u8>> = Vec::new();
    let comm = b"ls".to_vec();

    execsnoop_enter(&mut table, &cfg, 1000, 42, 7, &path, &tail);
    execsnoop_exit(&mut table, &mut chan, &cfg, 1000, 42, &comm, -2);
    let (events, _) = read_event_batch(&mut chan, 8);
    assert_eq!(events.len(), 1);
    assert!(events[0].retval < 0);
    assert_eq!(events[0].retval, -2);
}

#[test]
fn uid_filter_rejects_early() {
    let mut table = ExecTable::new();
    let mut chan = Channel::new(16);
    let cfg = Config { targ_uid: 500, ..cfg_all() };
    let path = b"ls".to_vec();
    let tail: Vec<Vec<u8>> = Vec::new();
    let comm = b"ls".to_vec();

    let r = execsnoop_enter(&mut table, &cfg, 1000, 42, 7, &path, &tail);
    assert_eq!(r, 0);
    // no table entry was created for the filtered caller
    assert!(!table.contains(42));
    assert_eq!(table.len(), 0);
    let r = execsnoop_exit(&mut table, &mut chan, &cfg, 1000, 42, &comm, 0);
    assert_eq!(r, 0);
    let (events, lost) = read_event_batch(&mut chan, 8);
    assert_eq!(events.len(), 0);
    assert_eq!(lost, 0);
}

#[test]
fn table_full_drops_silently() {
    let mut table = ExecTable::new();
    let mut chan = Channel::new(16);
    let cfg = cfg_all();
    let path = b"ls".to_vec();
    let tail: Vec<Vec<u8>> = Vec::new();
    let comm = b"ls".to_vec();

    for pid in 0..10240 {
        assert!(table.begin(pid, Event::empty()));
    }
    assert_eq!(table.len(), 10240);

    // one more process execs: its record is silently dropped
    let r = execsnoop_enter(&mut table, &cfg, 1000, 10241, 7, &path, &tail);
    assert_eq!(r, 0);
    assert!(!table.contains(10241));
    assert_eq!(table.len(), 10240);

    // its later exit probe finds not-found and no-ops
    let r = execsnoop_exit(&mut table, &mut chan, &cfg, 1000, 10241, &comm, 0);
    assert_eq!(r, 1);
    let (events, lost) = read_event_batch(&mut chan, 8);
    assert_eq!(events.len(), 0);
    assert_eq!(lost, 0);
}

#[test]
fn args_capped_at_configured_maximum() {
    let mut table = ExecTable::new();
    let mut chan = Channel::new(16);
    let cfg = Config { max_args: 3, ..cfg_all() };
    let path = b"prog".to_vec();
    let tail = vec![b"a".to_vec(), b"b".to_vec(), b"c".to_vec(), b"d".to_vec()];
    let comm = b"prog".to_vec();

    execsnoop_enter(&mut table, &cfg, 1000, 5, 1, &path, &tail);
    execsnoop_exit(&mut table, &mut chan, &cfg, 1000, 5, &comm, 0);
    let (events, _) = read_event_batch(&mut chan, 8);
    assert_eq!(events.len(), 1);
    assert_eq!(events[0].args_count, 3);
    let args = events[0].args().unwrap();
    assert_eq!(args, vec![b"prog".to_vec(), b"a".to_vec(), b"b".to_vec()]);
}

#[test]
fn long_argument_truncated_with_terminator() {
    let mut table = ExecTable::new();
    let mut chan = Channel::new(16);
    let cfg = cfg_all();
    let path = b"prog".to_vec();
    let long = vec![b'x'; 200];
    let tail = vec![long.clone()];
    let comm = b"prog".to_vec();

    execsnoop_enter(&mut table, &cfg, 1000, 5, 1, &path, &tail);
    execsnoop_exit(&mut table, &mut chan, &cfg, 1000, 5, &comm, 0);
    let (events, _) = read_event_batch(&mut chan, 8);
    let args = events[0].args().unwrap();
    assert_eq!(args[1].len(), 127);
    assert_eq!(args[1], long[..127].to_vec());
    // the stored slot still carries its terminator within capacity
    assert!(events[0].args[1].contains(&0u8));
}
