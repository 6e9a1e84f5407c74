//! The delivery channel: one per hardware-thread context, a fixed-capacity
//! FIFO of raw fixed-size record images with its own overflow counter. A
//! push when full increments that channel's loss counter and drops the
//! record; it never blocks the emitting probe.

use vstd::prelude::*;

use crate::record::EVENT_BYTES;

verus! {

/// One processor's outbound channel of completed records.
pub struct Channel {
    buf: Vec<Vec<u8>>,
    cap: usize,
    lost: u64,
    reported: u64,
}

/// Mathematical image of a [`Channel`]: its queued record images oldest
/// first, its capacity, its loss counter, and how much of that counter the
/// consumer has already seen.
#[verifier::ext_equal]
pub ghost struct ChannelSpec {
    pub contents: Seq<Seq<u8>>,
    pub cap: nat,
    pub lost: nat,
    pub reported: nat,
}

impl View for Channel {
    type V = ChannelSpec;

    closed spec fn view(&self) -> ChannelSpec {
        ChannelSpec {
            contents: self.buf.deep_view(),
            cap: self.cap as nat,
            lost: self.lost as nat,
            reported: self.reported as nat,
        }
    }
}

/// The channel after one push: the record is queued when there is room;
/// when full, it is dropped and the loss counter alone moves, by one.
pub open spec fn push_post(c: ChannelSpec, blob: Seq<u8>) -> ChannelSpec {
    if c.contents.len() < c.cap {
        ChannelSpec { contents: c.contents.push(blob), ..c }
    } else {
        ChannelSpec { lost: c.lost + 1, ..c }
    }
}

/// The channel state after a whole sequence of pushes.
pub open spec fn replay_pushes(c: ChannelSpec, blobs: Seq<Seq<u8>>) -> ChannelSpec
    decreases blobs.len(),
{
    if blobs.len() == 0 {
        c
    } else {
        replay_pushes(push_post(c, blobs[0]), blobs.skip(1))
    }
}

/// How many of a sequence of pushes arrive while the channel is full.
pub open spec fn full_pushes(c: ChannelSpec, blobs: Seq<Seq<u8>>) -> nat
    decreases blobs.len(),
{
    if blobs.len() == 0 {
        0
    } else {
        (if c.contents.len() >= c.cap {
            1nat
        } else {
            0nat
        }) + full_pushes(push_post(c, blobs[0]), blobs.skip(1))
    }
}

/// Loss accounting: over any sequence of pushes the loss counter never
/// decreases, and it grows by exactly the number of pushes that arrived
/// while the channel was full.
pub proof fn lemma_loss_accounting(c: ChannelSpec, blobs: Seq<Seq<u8>>)
    ensures
        replay_pushes(c, blobs).lost == c.lost + full_pushes(c, blobs),
        replay_pushes(c, blobs).lost >= c.lost,
    decreases blobs.len(),
{
    if blobs.len() == 0 {
    } else {
        lemma_loss_accounting(push_post(c, blobs[0]), blobs.skip(1));
    }
}

impl Channel {
    /// Fixed capacity, queued records within it, losses counted before
    /// being reported, and every queued image of the fixed record size.
    pub closed spec fn inv(&self) -> bool {
        &&& self.buf@.len() <= self.cap
        &&& self.reported <= self.lost
        &&& 1 <= self.cap
        &&& forall|i: int|
            0 <= i < self.buf@.len() ==> (#[trigger] self.buf@[i])@.len() == EVENT_BYTES
    }

    /// A fresh empty channel of the given capacity.
    pub fn new(cap: usize) -> (c: Channel)
        requires
            1 <= cap,
        ensures
            c.inv(),
            c@ == (ChannelSpec {
                contents: Seq::<Seq<u8>>::empty(),
                cap: cap as nat,
                lost: 0,
                reported: 0,
            }),
    {
        let c = Channel { buf: Vec::new(), cap, lost: 0, reported: 0 };
        proof {
            assert(c@ =~~= ChannelSpec {
                contents: Seq::<Seq<u8>>::empty(),
                cap: cap as nat,
                lost: 0,
                reported: 0,
            });
        }
        c
    }

    /// Pushes one completed record image; never blocks: when the channel is
    /// full the image is dropped and the loss counter moves instead.
    pub fn push(&mut self, blob: Vec<u8>)
        requires
            old(self).inv(),
            blob@.len() == EVENT_BYTES,
            old(self)@.lost < 0xFFFF_FFFF_FFFF_FFFFu64,
        ensures
            final(self).inv(),
            final(self)@ == push_post(old(self)@, blob@),
    {
        if self.buf.len() < self.cap {
            proof {
                crate::record::lemma_bytes_deep_view(blob);
            }
            self.buf.push(blob);
            proof {
                assert(self@ =~~= push_post(old(self)@, blob@));
            }
        } else {
            self.lost = self.lost + 1;
            proof {
                assert(self@ =~~= push_post(old(self)@, blob@));
            }
        }
    }

    /// Pulls up to `max` queued record images, oldest first, together with
    /// the number of records lost since the previous pull; the loss counter
    /// itself only ever grows.
    pub fn read_events(&mut self, max: usize) -> (r: (Vec<Vec<u8>>, u64))
        requires
            old(self).inv(),
        ensures
            final(self).inv(),
            r.0.deep_view() == old(self)@.contents.take(
                if max <= old(self)@.contents.len() {
                    max as int
                } else {
                    old(self)@.contents.len() as int
                },
            ),
            final(self)@.contents == old(self)@.contents.skip(r.0.deep_view().len() as int),
            final(self)@.cap == old(self)@.cap,
            final(self)@.lost == old(self)@.lost,
            r.1 == old(self)@.lost - old(self)@.reported,
            final(self)@.reported == final(self)@.lost,
            forall|i: int|
                0 <= i < r.0.deep_view().len() ==> (#[trigger] r.0.deep_view()[i]).len()
                    == EVENT_BYTES,
    {
        broadcast use crate::record::lemma_bytes_deep_view;

        let ghost c0 = self@.contents;
        proof {
            assert(forall|j: int|
                0 <= j < c0.len() ==> (#[trigger] c0[j]) == self.buf@[j]@);
        }
        let k: usize = if max <= self.buf.len() {
            max
        } else {
            self.buf.len()
        };
        let mut out: Vec<Vec<u8>> = Vec::new();
        let mut i: usize = 0;
        while i < k
            invariant
                i <= k,
                k <= c0.len(),
                self.cap == old(self).cap,
                self.lost == old(self).lost,
                self.reported == old(self).reported,
                1 <= self.cap,
                self.reported <= self.lost,
                c0.len() <= self.cap,
                out@.len() == i,
                self.buf@.len() == c0.len() - i,
                forall|j: int| 0 <= j < i ==> (#[trigger] out@[j])@ == c0[j],
                forall|j: int|
                    0 <= j < c0.len() - i ==> (#[trigger] self.buf@[j])@ == c0[i + j],
                forall|j: int| 0 <= j < c0.len() ==> (#[trigger] c0[j]).len() == EVENT_BYTES,
            decreases k - i,
        {
            let b = self.buf.remove(0);
            out.push(b);
            i += 1;
        }
        let delta = self.lost - self.reported;
        self.reported = self.lost;
        proof {
            assert(out.deep_view() =~= c0.take(k as int));
            assert(self.buf.deep_view() =~= c0.skip(k as int));
            assert forall|j: int| 0 <= j < out.deep_view().len() implies (#[trigger] out
                .deep_view()[j]).len() == EVENT_BYTES by {
                assert(out.deep_view()[j] == c0[j]);
            }
        }
        (out, delta)
    }

    /// How many records this channel has dropped since creation.
    pub fn lost_total(&self) -> (n: u64)
        ensures
            n == self@.lost,
    {
        self.lost
    }
}

} // verus!
