//! The fixed-shape record built for every observed exec attempt, and the
//! bounded-buffer string conventions shared by both sides of the pipeline:
//! every textual field is a fixed-capacity byte buffer holding a
//! NUL-terminated string, truncated silently when too long.

use vstd::prelude::*;

verus! {

/// Default number of arguments captured per record.
pub const DEFAULT_MAX_ARGS: u32 = 20;
/// Hard structural maximum of argument slots in a record.
pub const TOTAL_MAX_ARGS: u32 = 60;
/// Identity-filter value meaning "trace every uid".
pub const UID_ALL: u32 = 0xFFFF_FFFF;
/// Capacity of one argument slot, terminator included.
pub const ARGSIZE: usize = 128;
/// Capacity of the short process-name buffer, terminator included.
pub const TASK_COMM_LEN: usize = 16;
/// Size in bytes of one record on the wire: five 32-bit words, the comm
/// buffer, then the argument slots.
pub const EVENT_BYTES: usize = 7716;

/// One record per observed exec attempt. `pid`, `ppid` and `retval` use -1
/// as the not-yet-known sentinel; `comm` and each populated `args` slot are
/// fixed-capacity NUL-terminated byte buffers.
pub struct Event {
    pub pid: i32,
    pub ppid: i32,
    pub uid: u32,
    pub retval: i32,
    pub args_count: i32,
    pub comm: Vec<u8>,
    pub args: Vec<Vec<u8>>,
}

/// Mathematical image of an [`Event`]: the same fields over sequences.
#[verifier::ext_equal]
pub ghost struct EventSpec {
    pub pid: i32,
    pub ppid: i32,
    pub uid: u32,
    pub retval: i32,
    pub args_count: i32,
    pub comm: Seq<u8>,
    pub args: Seq<Seq<u8>>,
}

impl View for Event {
    type V = EventSpec;

    open spec fn view(&self) -> EventSpec {
        EventSpec {
            pid: self.pid,
            ppid: self.ppid,
            uid: self.uid,
            retval: self.retval,
            args_count: self.args_count,
            comm: self.comm@,
            args: self.args.deep_view(),
        }
    }
}

/// Shape every record must keep: full-capacity buffers and an argument
/// count within the structural bound.
pub open spec fn wf_event(e: EventSpec) -> bool {
    &&& e.comm.len() == TASK_COMM_LEN
    &&& e.args.len() == TOTAL_MAX_ARGS
    &&& (forall|i: int| 0 <= i < e.args.len() ==> (#[trigger] e.args[i]).len() == ARGSIZE)
    &&& 0 <= e.args_count <= TOTAL_MAX_ARGS
}

/// The all-sentinel record a fresh table slot starts from.
pub open spec fn empty_event() -> EventSpec {
    EventSpec {
        pid: -1i32,
        ppid: -1i32,
        uid: 0,
        retval: -1i32,
        args_count: 0,
        comm: Seq::new(TASK_COMM_LEN as nat, |i: int| 0u8),
        args: Seq::new(TOTAL_MAX_ARGS as nat, |i: int| Seq::new(ARGSIZE as nat, |j: int| 0u8)),
    }
}

/// A buffer of `n` zero bytes.
pub fn zero_buf(n: usize) -> (r: Vec<u8>)
    ensures
        r@ == Seq::new(n as nat, |i: int| 0u8),
{
    let mut r: Vec<u8> = Vec::new();
    let mut i: usize = 0;
    while i < n
        invariant
            i <= n,
            r@ == Seq::new(i as nat, |k: int| 0u8),
        decreases n - i,
    {
        r.push(0u8);
        proof {
            assert(r@ =~= Seq::new((i + 1) as nat, |k: int| 0u8));
        }
        i += 1;
    }
    r
}

/// A byte vector's deep view coincides with its flat view.
pub broadcast proof fn lemma_bytes_deep_view(v: Vec<u8>)
    ensures
        #[trigger] v.deep_view() == v@,
{
    assert(v.deep_view() =~= v@);
}

/// There is a NUL terminator somewhere within the buffer.
pub open spec fn cstr_ok(s: Seq<u8>) -> bool {
    exists|i: int| 0 <= i < s.len() && s[i] == 0
}

/// `p` is exactly the bytes of `buf` before its first NUL terminator.
pub open spec fn is_cstr_prefix(buf: Seq<u8>, p: Seq<u8>) -> bool {
    &&& p.len() < buf.len()
    &&& p == buf.take(p.len() as int)
    &&& buf[p.len() as int] == 0
    &&& (forall|j: int| 0 <= j < p.len() ==> p[j] != 0)
}

/// What storing a string into a fixed slot of `cap` bytes leaves there: the
/// source truncated to `cap - 1` bytes, then zero padding to `cap`.
pub open spec fn stored_str(src: Seq<u8>, cap: int) -> Seq<u8>
    recommends
        1 <= cap,
{
    let n: int = if src.len() <= cap - 1 {
        src.len() as int
    } else {
        cap - 1
    };
    src.take(n) + Seq::new((cap - n) as nat, |i: int| 0u8)
}

/// A stored slot fills its capacity and always carries a NUL terminator.
pub proof fn lemma_stored_str(src: Seq<u8>, cap: int)
    requires
        1 <= cap,
    ensures
        stored_str(src, cap).len() == cap,
        cstr_ok(stored_str(src, cap)),
{
    let n: int = if src.len() <= cap - 1 {
        src.len() as int
    } else {
        cap - 1
    };
    let s = stored_str(src, cap);
    assert(s[n] == 0);
}

/// Copies a string into a fresh fixed-capacity slot, truncating to leave
/// room for the NUL terminator and zero-padding the rest.
pub fn store_str(src: &Vec<u8>, cap: usize) -> (r: Vec<u8>)
    requires
        1 <= cap,
    ensures
        r@ == stored_str(src@, cap as int),
        r@.len() == cap,
        cstr_ok(r@),
{
    let n: usize = if src.len() <= cap - 1 {
        src.len()
    } else {
        cap - 1
    };
    let mut r: Vec<u8> = Vec::new();
    let mut i: usize = 0;
    while i < n
        invariant
            i <= n,
            n <= src@.len(),
            r@ == src@.take(i as int),
        decreases n - i,
    {
        r.push(src[i]);
        proof {
            assert(r@ =~= src@.take((i + 1) as int));
        }
        i += 1;
    }
    while r.len() < cap
        invariant
            n <= r@.len() <= cap,
            r@ == src@.take(n as int) + Seq::new((r@.len() - n) as nat, |k: int| 0u8),
        decreases cap - r.len(),
    {
        r.push(0u8);
        proof {
            assert(r@ =~= src@.take(n as int) + Seq::new((r@.len() - n) as nat, |k: int| 0u8));
        }
    }
    proof {
        lemma_stored_str(src@, cap as int);
        assert(r@ =~= stored_str(src@, cap as int));
    }
    r
}

/// Scans a fixed-capacity buffer for its NUL terminator; returns the bytes
/// before it, or nothing when the buffer is malformed (no terminator).
pub fn cstr_prefix(buf: &Vec<u8>) -> (r: Option<Vec<u8>>)
    ensures
        r is Some <==> cstr_ok(buf@),
        match r {
            Some(p) => is_cstr_prefix(buf@, p@),
            None => !cstr_ok(buf@),
        },
{
    let mut out: Vec<u8> = Vec::new();
    let mut i: usize = 0;
    while i < buf.len() && buf[i] != 0
        invariant
            i <= buf@.len(),
            out@ == buf@.take(i as int),
            forall|j: int| 0 <= j < i ==> buf@[j] != 0,
        decreases buf@.len() - i,
    {
        out.push(buf[i]);
        proof {
            assert(out@ =~= buf@.take((i + 1) as int));
        }
        i += 1;
    }
    if i < buf.len() {
        Some(out)
    } else {
        None
    }
}

impl Event {
    /// The all-sentinel record used to initialize a fresh table slot.
    pub fn empty() -> (e: Event)
        ensures
            e@ == empty_event(),
            wf_event(e@),
    {
        let comm = zero_buf(TASK_COMM_LEN);
        let mut args: Vec<Vec<u8>> = Vec::new();
        let mut i: usize = 0;
        while i < TOTAL_MAX_ARGS as usize
            invariant
                i <= TOTAL_MAX_ARGS,
                args@.len() == i,
                forall|k: int|
                    0 <= k < i ==> (#[trigger] args@[k]).deep_view() == Seq::new(
                        ARGSIZE as nat,
                        |j: int| 0u8,
                    ),
        decreases TOTAL_MAX_ARGS - i,
        {
            let slot = zero_buf(ARGSIZE);
            proof {
                lemma_bytes_deep_view(slot);
            }
            args.push(slot);
            i += 1;
        }
        let e = Event { pid: -1, ppid: -1, uid: 0, retval: -1, args_count: 0, comm, args };
        proof {
            assert(e@ =~~= empty_event());
        }
        e
    }

    /// The command name: the bytes of `comm` before its NUL terminator, or
    /// nothing when the buffer is malformed.
    pub fn comm(&self) -> (r: Option<Vec<u8>>)
        ensures
            r is Some <==> cstr_ok(self@.comm),
            match r {
                Some(p) => is_cstr_prefix(self@.comm, p@),
                None => !cstr_ok(self@.comm),
            },
    {
        cstr_prefix(&self.comm)
    }

    /// The populated arguments, each stripped of its NUL terminator, in
    /// capture order; nothing when any populated slot is malformed.
    pub fn args(&self) -> (r: Option<Vec<Vec<u8>>>)
        requires
            wf_event(self@),
        ensures
            r is Some <==> (forall|i: int|
                0 <= i < self@.args_count ==> cstr_ok(#[trigger] self@.args[i])),
            match r {
                Some(v) => {
                    &&& v@.len() == self@.args_count
                    &&& (forall|i: int|
                        0 <= i < v@.len() ==> is_cstr_prefix(self@.args[i], (#[trigger] v@[i])@))
                },
                None => exists|i: int|
                    0 <= i < self@.args_count && !cstr_ok(#[trigger] self@.args[i]),
            },
    {
        let count: usize = self.args_count as usize;
        let mut v: Vec<Vec<u8>> = Vec::new();
        let mut i: usize = 0;
        while i < count
            invariant
                i <= count,
                count == self@.args_count,
                wf_event(self@),
                v@.len() == i,
                forall|k: int| 0 <= k < i ==> cstr_ok(#[trigger] self@.args[k]),
                forall|k: int|
                    0 <= k < i ==> is_cstr_prefix(self@.args[k], (#[trigger] v@[k])@),
            decreases count - i,
        {
            proof {
                lemma_bytes_deep_view(self.args@[i as int]);
            }
            match cstr_prefix(&self.args[i]) {
                Some(p) => {
                    v.push(p);
                }
                None => {
                    proof {
                        assert(0 <= i < self@.args_count && !cstr_ok(self@.args[i as int]));
                    }
                    return None;
                }
            }
            i += 1;
        }
        Some(v)
    }
}

} // verus!
