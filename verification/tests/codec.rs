//! The record format: the fixed binary layout and its round trip.

use execsnoop::codec::{decode, encode};
use execsnoop::record::{Event, EVENT_BYTES};

fn sample_event() -> Event {
    let mut ev = Event::empty();
    ev.pid = 1234;
    ev.ppid = -1;
    ev.uid = 4294967295;
    ev.retval = -2;
    ev.args_count = 2;
    ev.comm = b"bash\0\0\0\0\0\0\0\0\0\0\0\0".to_vec();
    ev.args[0][..5].copy_from_slice(b"bash\0");
    ev.args[1][..3].copy_from_slice(b"-c\0");
    ev
}

#[test]
fn encode_has_fixed_size() {
    assert_eq!(encode(&Event::empty()).len(), EVENT_BYTES);
    assert_eq!(encode(&sample_event()).len(), EVENT_BYTES);
    assert_eq!(EVENT_BYTES, 4 * 5 + 16 + 60 * 128);
}

#[test]
fn round_trip_preserves_record() {
    let ev = sample_event();
    let back = decode(&encode(&ev)).unwrap();
    assert_eq!(back.pid, ev.pid);
    assert_eq!(back.ppid, ev.ppid);
    assert_eq!(back.uid, ev.uid);
    assert_eq!(back.retval, ev.retval);
    assert_eq!(back.args_count, ev.args_count);
    assert_eq!(back.comm, ev.comm);
    assert_eq!(back.args, ev.args);
}

#[test]
fn round_trip_negative_sentinels() {
    let ev = Event::empty();
    let back = decode(&encode(&ev)).unwrap();
    assert_eq!(back.pid, -1);
    assert_eq!(back.ppid, -1);
    assert_eq!(back.retval, -1);
    assert_eq!(back.args_count, 0);
}

#[test]
fn decode_rejects_wrong_size() {
    assert!(decode(&vec![0u8; 16]).is_none());
    assert!(decode(&vec![0u8; EVENT_BYTES - 1]).is_none());
    assert!(decode(&vec![0u8; EVENT_BYTES + 1]).is_none());
    assert!(decode(&Vec::new()).is_none());
}

#[test]
fn decode_rejects_bad_args_count() {
    let mut blob = encode(&Event::empty());
    // args_count is the fifth little-endian word; 61 exceeds the bound
    blob[16] = 61;
    assert!(decode(&blob).is_none());
    // a negative count is malformed too
    blob[16] = 0xFF;
    blob[17] = 0xFF;
    blob[18] = 0xFF;
    blob[19] = 0xFF;
    assert!(decode(&blob).is_none());
    // the structural maximum itself is accepted
    blob[16] = 60;
    blob[17] = 0;
    blob[18] = 0;
    blob[19] = 0;
    let back = decode(&blob).unwrap();
    assert_eq!(back.args_count, 60);
}

#[test]
fn layout_is_little_endian_words() {
    let mut ev = Event::empty();
    ev.pid = 0x01020304;
    ev.uid = 0x0A0B0C0D;
    let blob = encode(&ev);
    assert_eq!(&blob[0..4], &[0x04, 0x03, 0x02, 0x01]);
    assert_eq!(&blob[8..12], &[0x0D, 0x0C, 0x0B, 0x0A]);
    // comm sits after the five words, args back to back after it
    assert_eq!(&blob[20..36], &ev.comm[..]);
}
