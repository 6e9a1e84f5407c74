//! The consumer side: one reader per processor pulls batches of completed
//! records from that processor's channel, reinterprets each wire image as
//! a record, and surfaces how many records that processor lost since the
//! previous pull. Streams from different processors carry no ordering
//! guarantee; within one processor's stream the pull order is push order.

use vstd::prelude::*;

use crate::channel::{push_post, Channel, ChannelSpec};
use crate::codec::{blob_ok, decode, decode_spec, encode_spec, lemma_codec_round_trip};
use crate::record::{wf_event, Event, EventSpec};

verus! {

/// The records recovered from a batch of wire images, oldest first,
/// malformed images skipped.
pub open spec fn decoded_seq(blobs: Seq<Seq<u8>>) -> Seq<EventSpec>
    decreases blobs.len(),
{
    if blobs.len() == 0 {
        Seq::empty()
    } else {
        decoded_seq(blobs.drop_last()) + (if blob_ok(blobs.last()) {
            seq![decode_spec(blobs.last())]
        } else {
            Seq::<EventSpec>::empty()
        })
    }
}

/// End-to-end delivery: a well-formed record emitted into a channel with
/// room is recovered by that channel's reader bit for bit, after whatever
/// was queued before it.
pub proof fn lemma_emitted_record_recovered(c: ChannelSpec, e: EventSpec)
    requires
        wf_event(e),
        c.contents.len() < c.cap,
    ensures
        decoded_seq(push_post(c, encode_spec(e)).contents) == decoded_seq(c.contents).push(e),
{
    lemma_codec_round_trip(e);
    let c1 = push_post(c, encode_spec(e));
    assert(c1.contents.drop_last() =~= c.contents);
    assert(decoded_seq(c1.contents) =~= decoded_seq(c.contents).push(e));
}

/// One pull of a processor's reader: up to `max` completed records leave
/// the channel oldest first, each reinterpreted as a record, together with
/// the number of records lost on this channel since the previous pull.
pub fn read_event_batch(chan: &mut Channel, max: usize) -> (r: (Vec<Event>, u64))
    requires
        old(chan).inv(),
    ensures
        final(chan).inv(),
        ({
            let k = if max <= old(chan)@.contents.len() {
                max as int
            } else {
                old(chan)@.contents.len() as int
            };
            let popped = old(chan)@.contents.take(k);
            &&& r.0@.map_values(|e: Event| e@) == decoded_seq(popped)
            &&& final(chan)@.contents == old(chan)@.contents.skip(k)
            &&& final(chan)@.cap == old(chan)@.cap
            &&& final(chan)@.lost == old(chan)@.lost
            &&& r.1 == old(chan)@.lost - old(chan)@.reported
            &&& final(chan)@.reported == final(chan)@.lost
            &&& (forall|i: int| 0 <= i < r.0@.len() ==> wf_event((#[trigger] r.0@[i])@))
        }),
{
    broadcast use crate::record::lemma_bytes_deep_view;

    let (blobs, lost) = chan.read_events(max);
    let ghost popped = blobs.deep_view();
    let mut out: Vec<Event> = Vec::new();
    let mut i: usize = 0;
    while i < blobs.len()
        invariant
            i <= blobs@.len(),
            popped == blobs.deep_view(),
            popped.len() == blobs@.len(),
            out@.map_values(|e: Event| e@) == decoded_seq(popped.take(i as int)),
            forall|t: int| 0 <= t < out@.len() ==> wf_event((#[trigger] out@[t])@),
        decreases blobs@.len() - i,
    {
        proof {
            assert(popped.take((i + 1) as int).drop_last() =~= popped.take(i as int));
            assert(popped[i as int] == blobs@[i as int]@);
        }
        match decode(&blobs[i]) {
            Some(e) => {
                out.push(e);
                proof {
                    assert(out@.map_values(|e: Event| e@) =~= decoded_seq(
                        popped.take((i + 1) as int),
                    ));
                }
            }
            None => {
                proof {
                    assert(decoded_seq(popped.take((i + 1) as int)) =~= decoded_seq(
                        popped.take(i as int),
                    ));
                }
            }
        }
        i += 1;
    }
    proof {
        assert(popped.take(popped.len() as int) =~= popped);
    }
    (out, lost)
}

} // verus!
