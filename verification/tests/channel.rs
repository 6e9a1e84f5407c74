//! The delivery channel's FIFO order and loss accounting.

use execsnoop::channel::Channel;
use execsnoop::codec::encode;
use execsnoop::collector::read_event_batch;
use execsnoop::record::Event;

fn blob_with_pid(pid: i32) -> Vec<u8> {
    let mut ev = Event::empty();
    ev.pid = pid;
    encode(&ev)
}

#[test]
fn loss_counter_counts_full_pushes_exactly() {
    let mut chan = Channel::new(2);
    chan.push(blob_with_pid(1));
    assert_eq!(chan.lost_total(), 0);
    chan.push(blob_with_pid(2));
    assert_eq!(chan.lost_total(), 0);
    // channel full: each further push is dropped and counted
    chan.push(blob_with_pid(3));
    assert_eq!(chan.lost_total(), 1);
    chan.push(blob_with_pid(4));
    assert_eq!(chan.lost_total(), 2);

    let (events, lost) = read_event_batch(&mut chan, 8);
    assert_eq!(events.len(), 2);
    assert_eq!(lost, 2);
    // room again: pushes are queued, the counter stays put
    chan.push(blob_with_pid(5));
    assert_eq!(chan.lost_total(), 2);
    let (_, lost) = read_event_batch(&mut chan, 8);
    assert_eq!(lost, 0);
}

#[test]
fn loss_counter_monotone() {
    let mut chan = Channel::new(1);
    let mut prev = chan.lost_total();
    for pid in 0..5 {
        chan.push(blob_with_pid(pid));
        let now = chan.lost_total();
        assert!(now >= prev);
        prev = now;
    }
    assert_eq!(prev, 4);
}

#[test]
fn fifo_within_one_channel() {
    let mut chan = Channel::new(8);
    chan.push(blob_with_pid(10));
    chan.push(blob_with_pid(20));
    chan.push(blob_with_pid(30));
    let (events, _) = read_event_batch(&mut chan, 2);
    assert_eq!(events.len(), 2);
    assert_eq!(events[0].pid, 10);
    assert_eq!(events[1].pid, 20);
    let (events, _) = read_event_batch(&mut chan, 2);
    assert_eq!(events.len(), 1);
    assert_eq!(events[0].pid, 30);
}

#[test]
fn dropped_record_never_delivered() {
    let mut chan = Channel::new(1);
    chan.push(blob_with_pid(1));
    chan.push(blob_with_pid(2));
    let (events, lost) = read_event_batch(&mut chan, 8);
    assert_eq!(events.len(), 1);
    assert_eq!(events[0].pid, 1);
    assert_eq!(lost, 1);
}
