//! The record format as a byte contract: a compile-time-fixed binary layout
//! producible and interpretable by both sides of the pipeline without a
//! negotiation step. Scalar fields are little-endian 32-bit words (signed
//! fields carried as their two's-complement bit pattern), followed by the
//! `comm` buffer and the sixty argument slots back to back.

use vstd::bytes::{
    lemma_auto_spec_u32_to_from_le_bytes, spec_u32_from_le_bytes, spec_u32_to_le_bytes,
    u32_from_le_bytes, u32_to_le_bytes,
};
use vstd::prelude::*;
use vstd::slice::slice_subrange;

use crate::record::{wf_event, Event, EventSpec, ARGSIZE, EVENT_BYTES, TOTAL_MAX_ARGS};

verus! {

/// Two's-complement bit pattern of a signed field, as the unsigned word
/// that goes on the wire.
pub open spec fn i32_bits(x: i32) -> u32 {
    if x >= 0 {
        x as u32
    } else {
        (x + 0x1_0000_0000) as u32
    }
}

/// The signed field a wire word stands for.
pub open spec fn bits_i32(b: u32) -> i32 {
    if b < 0x8000_0000 {
        b as i32
    } else {
        (b - 0x1_0000_0000) as i32
    }
}

fn i32_bits_exec(x: i32) -> (r: u32)
    ensures
        r == i32_bits(x),
{
    if x >= 0 {
        x as u32
    } else {
        ((x as i64) + 0x1_0000_0000i64) as u32
    }
}

fn bits_i32_exec(b: u32) -> (r: i32)
    ensures
        r == bits_i32(b),
{
    if b < 0x8000_0000 {
        b as i32
    } else {
        ((b as i64) - 0x1_0000_0000i64) as i32
    }
}

/// The argument slots laid back to back.
pub open spec fn flat_args(args: Seq<Seq<u8>>) -> Seq<u8>
    decreases args.len(),
{
    if args.len() == 0 {
        Seq::empty()
    } else {
        flat_args(args.drop_last()) + args.last()
    }
}

pub proof fn lemma_flat_args_len(args: Seq<Seq<u8>>)
    requires
        forall|i: int| 0 <= i < args.len() ==> (#[trigger] args[i]).len() == ARGSIZE,
    ensures
        flat_args(args).len() == args.len() * ARGSIZE,
    decreases args.len(),
{
    if args.len() == 0 {
    } else {
        let a0 = args.drop_last();
        lemma_flat_args_len(a0);
        assert((args.len() - 1) * ARGSIZE + ARGSIZE == args.len() * ARGSIZE) by (nonlinear_arith);
    }
}

pub proof fn lemma_flat_args_index(args: Seq<Seq<u8>>, i: int)
    requires
        forall|k: int| 0 <= k < args.len() ==> (#[trigger] args[k]).len() == ARGSIZE,
        0 <= i < args.len(),
    ensures
        flat_args(args).subrange(i * ARGSIZE, i * ARGSIZE + ARGSIZE) == args[i],
    decreases args.len(),
{
    let a0 = args.drop_last();
    lemma_flat_args_len(a0);
    lemma_flat_args_len(args);
    assert(0 <= i * ARGSIZE && (i + 1) * ARGSIZE <= args.len() * ARGSIZE) by (nonlinear_arith)
        requires 0 <= i < args.len();
    assert(i * ARGSIZE + ARGSIZE == (i + 1) * ARGSIZE);
    if i == args.len() - 1 {
        assert(flat_args(args).subrange(i * ARGSIZE, i * ARGSIZE + ARGSIZE) =~= args[i]);
    } else {
        lemma_flat_args_index(a0, i);
        assert((i + 1) * ARGSIZE <= a0.len() * ARGSIZE) by (nonlinear_arith)
            requires 0 <= i < a0.len();
        assert(flat_args(args).subrange(i * ARGSIZE, i * ARGSIZE + ARGSIZE) =~= flat_args(
            a0,
        ).subrange(i * ARGSIZE, i * ARGSIZE + ARGSIZE));
    }
}

/// The wire image of a record.
pub open spec fn encode_spec(e: EventSpec) -> Seq<u8> {
    spec_u32_to_le_bytes(i32_bits(e.pid)) + spec_u32_to_le_bytes(i32_bits(e.ppid))
        + spec_u32_to_le_bytes(e.uid) + spec_u32_to_le_bytes(i32_bits(e.retval))
        + spec_u32_to_le_bytes(i32_bits(e.args_count)) + e.comm + flat_args(e.args)
}

/// The sixty argument slots read back out of the tail of a wire image.
pub open spec fn unflat_args(b: Seq<u8>) -> Seq<Seq<u8>> {
    Seq::new(
        TOTAL_MAX_ARGS as nat,
        |i: int| b.subrange(i * ARGSIZE, i * ARGSIZE + ARGSIZE),
    )
}

/// The record a wire image of the right size stands for.
pub open spec fn decode_spec(b: Seq<u8>) -> EventSpec
    recommends
        b.len() == EVENT_BYTES,
{
    EventSpec {
        pid: bits_i32(spec_u32_from_le_bytes(b.subrange(0, 4))),
        ppid: bits_i32(spec_u32_from_le_bytes(b.subrange(4, 8))),
        uid: spec_u32_from_le_bytes(b.subrange(8, 12)),
        retval: bits_i32(spec_u32_from_le_bytes(b.subrange(12, 16))),
        args_count: bits_i32(spec_u32_from_le_bytes(b.subrange(16, 20))),
        comm: b.subrange(20, 36),
        args: unflat_args(b.subrange(36, EVENT_BYTES as int)),
    }
}

/// A wire image a reader may accept: right size, and an argument count
/// within the structural bound (anything else is a malformed record).
pub open spec fn blob_ok(b: Seq<u8>) -> bool {
    &&& b.len() == EVENT_BYTES
    &&& 0 <= decode_spec(b).args_count <= TOTAL_MAX_ARGS
}

/// Writing a record and reading it back loses nothing: the wire image of a
/// well-formed record is acceptable and decodes to the same record.
pub proof fn lemma_codec_round_trip(e: EventSpec)
    requires
        wf_event(e),
    ensures
        encode_spec(e).len() == EVENT_BYTES,
        blob_ok(encode_spec(e)),
        decode_spec(encode_spec(e)) == e,
{
    lemma_auto_spec_u32_to_from_le_bytes();
    lemma_flat_args_len(e.args);
    let b = encode_spec(e);
    assert(b.subrange(0, 4) =~= spec_u32_to_le_bytes(i32_bits(e.pid)));
    assert(b.subrange(4, 8) =~= spec_u32_to_le_bytes(i32_bits(e.ppid)));
    assert(b.subrange(8, 12) =~= spec_u32_to_le_bytes(e.uid));
    assert(b.subrange(12, 16) =~= spec_u32_to_le_bytes(i32_bits(e.retval)));
    assert(b.subrange(16, 20) =~= spec_u32_to_le_bytes(i32_bits(e.args_count)));
    assert(b.subrange(20, 36) =~= e.comm);
    let tail = b.subrange(36, EVENT_BYTES as int);
    assert(tail =~= flat_args(e.args));
    assert forall|i: int| 0 <= i < TOTAL_MAX_ARGS implies unflat_args(tail)[i] == e.args[i] by {
        lemma_flat_args_index(e.args, i);
    }
    assert(unflat_args(tail) =~= e.args);
    assert(decode_spec(b) =~~= e);
}

fn push_u32(out: &mut Vec<u8>, x: u32)
    ensures
        final(out)@ == old(out)@ + spec_u32_to_le_bytes(x),
{
    let mut b = u32_to_le_bytes(x);
    out.append(&mut b);
}

fn push_bytes(out: &mut Vec<u8>, src: &Vec<u8>)
    ensures
        final(out)@ == old(out)@ + src@,
{
    let mut i: usize = 0;
    while i < src.len()
        invariant
            i <= src@.len(),
            out@ == old(out)@ + src@.take(i as int),
        decreases src@.len() - i,
    {
        out.push(src[i]);
        proof {
            assert(out@ =~= old(out)@ + src@.take((i + 1) as int));
        }
        i += 1;
    }
    proof {
        assert(out@ =~= old(out)@ + src@);
    }
}

/// Serializes a record into its fixed-size wire image.
pub fn encode(e: &Event) -> (r: Vec<u8>)
    requires
        wf_event(e@),
    ensures
        r@ == encode_spec(e@),
        r@.len() == EVENT_BYTES,
{
    let mut out: Vec<u8> = Vec::new();
    push_u32(&mut out, i32_bits_exec(e.pid));
    push_u32(&mut out, i32_bits_exec(e.ppid));
    push_u32(&mut out, e.uid);
    push_u32(&mut out, i32_bits_exec(e.retval));
    push_u32(&mut out, i32_bits_exec(e.args_count));
    push_bytes(&mut out, &e.comm);
    let ghost head = out@;
    let mut i: usize = 0;
    while i < e.args.len()
        invariant
            i <= e.args@.len(),
            e.args@.len() == e@.args.len(),
            forall|k: int| 0 <= k < e@.args.len() ==> (#[trigger] e@.args[k]).len() == ARGSIZE,
            out@ == head + flat_args(e@.args.take(i as int)),
        decreases e.args@.len() - i,
    {
        proof {
            crate::record::lemma_bytes_deep_view(e.args@[i as int]);
        }
        push_bytes(&mut out, &e.args[i]);
        proof {
            let t = e@.args.take((i + 1) as int);
            assert(t.drop_last() =~= e@.args.take(i as int));
            assert(t.last() == e@.args[i as int]);
            assert(out@ =~= head + flat_args(t));
        }
        i += 1;
    }
    proof {
        assert(e@.args.take(e@.args.len() as int) =~= e@.args);
        lemma_codec_round_trip(e@);
        assert(out@ =~= encode_spec(e@));
    }
    out
}

fn read_u32(b: &Vec<u8>, off: usize) -> (x: u32)
    requires
        off + 4 <= b@.len(),
    ensures
        x == spec_u32_from_le_bytes(b@.subrange(off as int, off as int + 4)),
{
    let len = b.len();
    assert(off + 4 <= len);
    let s = slice_subrange(b.as_slice(), off, off + 4);
    u32_from_le_bytes(s)
}

fn copy_range(b: &Vec<u8>, lo: usize, hi: usize) -> (r: Vec<u8>)
    requires
        lo <= hi <= b@.len(),
    ensures
        r@ == b@.subrange(lo as int, hi as int),
{
    let mut r: Vec<u8> = Vec::new();
    let mut i: usize = lo;
    while i < hi
        invariant
            lo <= i <= hi <= b@.len(),
            r@ == b@.subrange(lo as int, i as int),
        decreases hi - i,
    {
        r.push(b[i]);
        proof {
            assert(r@ =~= b@.subrange(lo as int, (i + 1) as int));
        }
        i += 1;
    }
    r
}

/// Reinterprets a wire image as a record, validating its size and argument
/// count; a malformed image yields nothing rather than a crash.
pub fn decode(b: &Vec<u8>) -> (r: Option<Event>)
    ensures
        r is Some <==> blob_ok(b@),
        match r {
            Some(e) => e@ == decode_spec(b@) && wf_event(e@),
            None => !blob_ok(b@),
        },
{
    if b.len() != EVENT_BYTES {
        return None;
    }
    let pid = bits_i32_exec(read_u32(b, 0));
    let ppid = bits_i32_exec(read_u32(b, 4));
    let uid = read_u32(b, 8);
    let retval = bits_i32_exec(read_u32(b, 12));
    let args_count = bits_i32_exec(read_u32(b, 16));
    if !(0 <= args_count && args_count <= TOTAL_MAX_ARGS as i32) {
        return None;
    }
    let comm = copy_range(b, 20, 36);
    let ghost btail = b@.subrange(36, EVENT_BYTES as int);
    let mut args: Vec<Vec<u8>> = Vec::new();
    let mut i: usize = 0;
    while i < TOTAL_MAX_ARGS as usize
        invariant
            i <= TOTAL_MAX_ARGS,
            b@.len() == EVENT_BYTES,
            btail == b@.subrange(36, EVENT_BYTES as int),
            args@.len() == i,
            forall|k: int|
                0 <= k < i ==> (#[trigger] args@[k]).deep_view() == btail.subrange(
                    k * ARGSIZE,
                    k * ARGSIZE + ARGSIZE,
                ),
        decreases TOTAL_MAX_ARGS - i,
    {
        proof {
            assert(0 <= i * ARGSIZE && (i + 1) * ARGSIZE <= 60 * ARGSIZE) by (nonlinear_arith)
                requires 0 <= i < 60;
            assert(i * ARGSIZE + ARGSIZE == (i + 1) * ARGSIZE);
        }
        let slot = copy_range(b, 36 + i * ARGSIZE, 36 + i * ARGSIZE + ARGSIZE);
        proof {
            crate::record::lemma_bytes_deep_view(slot);
            assert(slot@ =~= btail.subrange((i as int) * ARGSIZE, (i as int) * ARGSIZE + ARGSIZE));
        }
        args.push(slot);
        i += 1;
    }
    let e = Event { pid, ppid, uid, retval, args_count, comm, args };
    proof {
        assert(e@.args =~= unflat_args(btail));
        assert(e@ =~~= decode_spec(b@));
        assert forall|k: int| 0 <= k < e@.args.len() implies (#[trigger] e@.args[k]).len()
            == ARGSIZE by {
            assert(0 <= k * ARGSIZE && k * ARGSIZE + ARGSIZE <= btail.len()) by (nonlinear_arith)
                requires 0 <= k < 60, btail.len() == 7680;
        }
        assert(wf_event(e@));
    }
    Some(e)
}

} // verus!
