//! The two probes observing one exec call from its two asynchronous
//! observation points. The entry probe filters by caller identity, claims a
//! table slot insert-if-absent, and captures the program path and argument
//! vector; the exit probe re-checks the filter, finalizes the record with
//! the outcome and command name, decides whether to emit it, and always
//! releases the table slot.
//!
//! The probes work on the plain values the trace-point machinery read for
//! them: the caller's uid, pid and ppid, the argument strings that were
//! readable (argv is NUL-pointer-terminated, so the readable prefix is the
//! whole list), the resolved command name, and the call's return value.

use vstd::prelude::*;

use crate::channel::{push_post, Channel};
use crate::codec::{encode, encode_spec};
use crate::record::{
    cstr_ok, stored_str, wf_event, Event, EventSpec, ARGSIZE, TASK_COMM_LEN, TOTAL_MAX_ARGS,
    UID_ALL,
};
use crate::record::{store_str, zero_buf};
use crate::table::{begin_ok, begin_post, end_post, ExecTable};

verus! {

/// Process-wide configuration: set once before the probes attach,
/// immutable thereafter.
#[derive(Clone, Copy)]
pub struct Config {
    /// Trace only this uid, or [`UID_ALL`] for every caller.
    pub targ_uid: u32,
    /// Maximum arguments captured per record.
    pub max_args: u32,
    /// Whether failed execs are delivered at all.
    pub include_failed: bool,
}

/// The configured argument maximum lies in its allowed range.
pub open spec fn cfg_wf(c: Config) -> bool {
    1 <= c.max_args <= TOTAL_MAX_ARGS
}

/// The identity filter rejects this caller.
pub open spec fn filtered_out(c: Config, uid: u32) -> bool {
    c.targ_uid != UID_ALL && uid != c.targ_uid
}

/// How many arguments beyond the program path the entry probe captures:
/// the whole readable tail, cut off at the configured maximum.
pub open spec fn captured_tail(c: Config, tail_len: int) -> int {
    if tail_len <= c.max_args - 1 {
        tail_len
    } else {
        c.max_args - 1
    }
}

/// The record the entry probe leaves in the table: identity resolved,
/// program path in the first slot, readable arguments in the following
/// slots, outcome still unknown.
pub open spec fn built_event(
    c: Config,
    uid: u32,
    pid: i32,
    ppid: i32,
    path: Seq<u8>,
    tail: Seq<Seq<u8>>,
) -> EventSpec {
    let nt = captured_tail(c, tail.len() as int);
    EventSpec {
        pid,
        ppid,
        uid,
        retval: -1i32,
        args_count: (1 + nt) as i32,
        comm: Seq::new(TASK_COMM_LEN as nat, |i: int| 0u8),
        args: Seq::new(
            TOTAL_MAX_ARGS as nat,
            |i: int|
                if i == 0 {
                    stored_str(path, ARGSIZE as int)
                } else if 1 <= i <= nt {
                    stored_str(tail[i - 1], ARGSIZE as int)
                } else {
                    Seq::new(ARGSIZE as nat, |j: int| 0u8)
                },
        ),
    }
}

/// The table after the entry probe: unchanged for a filtered caller, a
/// duplicate pid or a full table; otherwise the built record is added.
pub open spec fn enter_post(
    m: Map<int, EventSpec>,
    c: Config,
    uid: u32,
    pid: i32,
    ppid: i32,
    path: Seq<u8>,
    tail: Seq<Seq<u8>>,
) -> Map<int, EventSpec> {
    if filtered_out(c, uid) {
        m
    } else {
        begin_post(m, pid, built_event(c, uid, pid, ppid, path, tail))
    }
}

/// The emission rule: a completed record becomes externally visible iff
/// the call succeeded or failed execs are configured in.
pub open spec fn should_emit(c: Config, retval: i32) -> bool {
    c.include_failed || retval >= 0
}

/// The record the exit probe completes: command name stored, outcome set,
/// everything captured at entry kept.
pub open spec fn finalized_event(e: EventSpec, comm: Seq<u8>, retval: i32) -> EventSpec {
    EventSpec { comm: stored_str(comm, TASK_COMM_LEN as int), retval, ..e }
}

/// The table after the exit probe: unchanged for a filtered caller,
/// otherwise the entry for `pid` is gone whether or not it was there and
/// whatever the emission decision was.
pub open spec fn exit_table_post(m: Map<int, EventSpec>, c: Config, uid: u32, pid: i32) -> Map<
    int,
    EventSpec,
> {
    if filtered_out(c, uid) {
        m
    } else {
        end_post(m, pid)
    }
}

/// What the exit probe emits: the finalized record, exactly when the
/// caller passes the filter, an in-flight record exists, and the emission
/// rule holds; nothing otherwise.
pub open spec fn exit_emission(
    m: Map<int, EventSpec>,
    c: Config,
    uid: u32,
    pid: i32,
    comm: Seq<u8>,
    retval: i32,
) -> Option<EventSpec> {
    if !filtered_out(c, uid) && m.dom().contains(pid as int) && should_emit(c, retval) {
        Some(finalized_event(m[pid as int], comm, retval))
    } else {
        None
    }
}

/// The record built at entry is well formed, and its argument count stays
/// within the configured maximum and the structural maximum.
pub proof fn lemma_built_event_wf(
    c: Config,
    uid: u32,
    pid: i32,
    ppid: i32,
    path: Seq<u8>,
    tail: Seq<Seq<u8>>,
)
    requires
        cfg_wf(c),
    ensures
        wf_event(built_event(c, uid, pid, ppid, path, tail)),
        1 <= built_event(c, uid, pid, ppid, path, tail).args_count <= c.max_args,
        built_event(c, uid, pid, ppid, path, tail).args_count <= TOTAL_MAX_ARGS,
{
    let e = built_event(c, uid, pid, ppid, path, tail);
    assert forall|i: int| 0 <= i < e.args.len() implies (#[trigger] e.args[i]).len()
        == ARGSIZE by {
        let nt = captured_tail(c, tail.len() as int);
        if i == 0 {
            crate::record::lemma_stored_str(path, ARGSIZE as int);
        } else if 1 <= i <= nt {
            crate::record::lemma_stored_str(tail[i - 1], ARGSIZE as int);
        }
    }
}

/// Delivered records keep the entry-probe argument-count bound: never more
/// than the configured maximum, never more than the structural maximum.
pub proof fn lemma_delivered_args_count(
    c: Config,
    uid: u32,
    pid: i32,
    ppid: i32,
    path: Seq<u8>,
    tail: Seq<Seq<u8>>,
    comm: Seq<u8>,
    retval: i32,
)
    requires
        cfg_wf(c),
    ensures
        ({
            let e = finalized_event(built_event(c, uid, pid, ppid, path, tail), comm, retval);
            &&& 1 <= e.args_count <= c.max_args
            &&& e.args_count <= TOTAL_MAX_ARGS
        }),
{
    lemma_built_event_wf(c, uid, pid, ppid, path, tail);
}

/// Every delivered record's `comm`, and each of its populated argument
/// slots, carries a NUL terminator within its fixed capacity.
pub proof fn lemma_delivered_nul_terminated(
    c: Config,
    uid: u32,
    pid: i32,
    ppid: i32,
    path: Seq<u8>,
    tail: Seq<Seq<u8>>,
    comm: Seq<u8>,
    retval: i32,
)
    requires
        cfg_wf(c),
    ensures
        ({
            let e = finalized_event(built_event(c, uid, pid, ppid, path, tail), comm, retval);
            &&& cstr_ok(e.comm)
            &&& forall|i: int| 0 <= i < e.args_count ==> cstr_ok(#[trigger] e.args[i])
        }),
{
    let e = finalized_event(built_event(c, uid, pid, ppid, path, tail), comm, retval);
    crate::record::lemma_stored_str(comm, TASK_COMM_LEN as int);
    assert forall|i: int| 0 <= i < e.args_count implies cstr_ok(#[trigger] e.args[i]) by {
        let nt = captured_tail(c, tail.len() as int);
        if i == 0 {
            crate::record::lemma_stored_str(path, ARGSIZE as int);
        } else {
            crate::record::lemma_stored_str(tail[i - 1], ARGSIZE as int);
        }
    }
}

/// Exactly-once delivery: when a caller passes the identity filter and the
/// table has capacity, its entry followed by its exit emits exactly one
/// record if the call succeeded or failed execs are included, and none
/// otherwise; the table slot is always released, so a repeated exit for
/// the same pid can emit nothing further.
pub proof fn lemma_delivered_exactly_once(
    m: Map<int, EventSpec>,
    c: Config,
    uid: u32,
    pid: i32,
    ppid: i32,
    path: Seq<u8>,
    tail: Seq<Seq<u8>>,
    comm: Seq<u8>,
    retval: i32,
)
    requires
        cfg_wf(c),
        !filtered_out(c, uid),
        begin_ok(m, pid),
    ensures
        ({
            let m1 = enter_post(m, c, uid, pid, ppid, path, tail);
            let delivered = exit_emission(m1, c, uid, pid, comm, retval);
            &&& (delivered is Some <==> should_emit(c, retval))
            &&& (delivered matches Some(e) ==> e == finalized_event(
                built_event(c, uid, pid, ppid, path, tail),
                comm,
                retval,
            ))
            &&& exit_table_post(m1, c, uid, pid) == m
            &&& exit_emission(exit_table_post(m1, c, uid, pid), c, uid, pid, comm, retval)
                is None
        }),
{
    let m1 = enter_post(m, c, uid, pid, ppid, path, tail);
    assert(m1 == m.insert(pid as int, built_event(c, uid, pid, ppid, path, tail)));
    assert(m1.remove(pid as int) =~= m);
}

/// The entry probe's computable core. Returns the status handed back to
/// the trace-point machinery; in-model reads cannot fail, so it always
/// succeeds.
pub fn try_execsnoop_enter(
    table: &mut ExecTable,
    cfg: &Config,
    uid: u32,
    pid: i32,
    ppid: i32,
    path: &Vec<u8>,
    argv_tail: &Vec<Vec<u8>>,
) -> (r: Result<(), i64>)
    requires
        old(table).inv(),
        cfg_wf(*cfg),
    ensures
        final(table).inv(),
        final(table)@ == enter_post(
            old(table)@,
            *cfg,
            uid,
            pid,
            ppid,
            path@,
            argv_tail.deep_view(),
        ),
        r is Ok,
{
    broadcast use crate::record::lemma_bytes_deep_view;

    if cfg.targ_uid != UID_ALL && uid != cfg.targ_uid {
        return Ok(());
    }
    let ghost tail = argv_tail.deep_view();
    let mut args: Vec<Vec<u8>> = Vec::new();
    args.push(store_str(path, ARGSIZE));
    let limit: usize = cfg.max_args as usize;
    let mut count: usize = 1;
    let mut j: usize = 0;
    while count < limit && j < argv_tail.len()
        invariant
            cfg_wf(*cfg),
            limit == cfg.max_args,
            count == 1 + j,
            count <= limit,
            j <= tail.len(),
            tail == argv_tail.deep_view(),
            args@.len() == count,
            (args@[0])@ == stored_str(path@, ARGSIZE as int),
            forall|t: int|
                1 <= t <= j ==> (#[trigger] args@[t])@ == stored_str(tail[t - 1], ARGSIZE as int),
        decreases limit - count,
    {
        args.push(store_str(&argv_tail[j], ARGSIZE));
        j += 1;
        count += 1;
    }
    let ghost nt = captured_tail(*cfg, tail.len() as int);
    proof {
        assert(j == nt);
    }
    while args.len() < TOTAL_MAX_ARGS as usize
        invariant
            count <= args@.len() <= TOTAL_MAX_ARGS,
            count == 1 + nt,
            args@.len() >= 1,
            (args@[0])@ == stored_str(path@, ARGSIZE as int),
            forall|t: int|
                1 <= t <= nt ==> (#[trigger] args@[t])@ == stored_str(tail[t - 1], ARGSIZE as int),
            forall|t: int|
                count <= t < args@.len() ==> (#[trigger] args@[t])@ == Seq::new(
                    ARGSIZE as nat,
                    |z: int| 0u8,
                ),
        decreases TOTAL_MAX_ARGS - args.len(),
    {
        args.push(zero_buf(ARGSIZE));
    }
    let ev = Event {
        pid,
        ppid,
        uid,
        retval: -1,
        args_count: count as i32,
        comm: zero_buf(TASK_COMM_LEN),
        args,
    };
    proof {
        lemma_built_event_wf(*cfg, uid, pid, ppid, path@, tail);
        assert(ev@ =~~= built_event(*cfg, uid, pid, ppid, path@, tail));
    }
    let _ = table.begin(pid, ev);
    Ok(())
}

/// The exit probe's computable core: re-checks the filter, finalizes the
/// in-flight record with the command name and return value, emits it to
/// this processor's channel when the emission rule holds, and releases the
/// table slot unconditionally. A missing in-flight record (filtered or
/// capacity-dropped at entry) is reported in the status and is otherwise a
/// graceful no-op.
pub fn try_execsnoop_exit(
    table: &mut ExecTable,
    chan: &mut Channel,
    cfg: &Config,
    uid: u32,
    pid: i32,
    comm: &Vec<u8>,
    retval: i32,
) -> (r: Result<(), i64>)
    requires
        old(table).inv(),
        old(chan).inv(),
        cfg_wf(*cfg),
        old(chan)@.lost < 0xFFFF_FFFF_FFFF_FFFFu64,
    ensures
        final(table).inv(),
        final(chan).inv(),
        final(table)@ == exit_table_post(old(table)@, *cfg, uid, pid),
        final(chan)@ == match exit_emission(old(table)@, *cfg, uid, pid, comm@, retval) {
            Some(e) => push_post(old(chan)@, encode_spec(e)),
            None => old(chan)@,
        },
        r is Ok <==> (filtered_out(*cfg, uid) || old(table)@.dom().contains(pid as int)),
{
    if cfg.targ_uid != UID_ALL && uid != cfg.targ_uid {
        return Ok(());
    }
    let mut ev = match table.take(pid) {
        Some(ev) => ev,
        None => {
            return Err(-1);
        }
    };
    ev.comm = store_str(comm, TASK_COMM_LEN);
    ev.retval = retval;
    proof {
        assert(ev@ =~~= finalized_event(old(table)@[pid as int], comm@, retval));
    }
    if cfg.include_failed || retval >= 0 {
        let blob = encode(&ev);
        chan.push(blob);
    }
    Ok(())
}

/// Entry-probe wrapper: folds the probe outcome into the status code the
/// trace-point machinery expects, zero for success.
pub fn execsnoop_enter(
    table: &mut ExecTable,
    cfg: &Config,
    uid: u32,
    pid: i32,
    ppid: i32,
    path: &Vec<u8>,
    argv_tail: &Vec<Vec<u8>>,
) -> (r: u32)
    requires
        old(table).inv(),
        cfg_wf(*cfg),
    ensures
        final(table).inv(),
        final(table)@ == enter_post(
            old(table)@,
            *cfg,
            uid,
            pid,
            ppid,
            path@,
            argv_tail.deep_view(),
        ),
        r == 0u32,
{
    match try_execsnoop_enter(table, cfg, uid, pid, ppid, path, argv_tail) {
        Ok(_) => 0,
        Err(_) => 1,
    }
}

/// Exit-probe wrapper: folds the probe outcome into the status code the
/// trace-point machinery expects; nonzero reports the no-op exit of an
/// untracked pid.
pub fn execsnoop_exit(
    table: &mut ExecTable,
    chan: &mut Channel,
    cfg: &Config,
    uid: u32,
    pid: i32,
    comm: &Vec<u8>,
    retval: i32,
) -> (r: u32)
    requires
        old(table).inv(),
        old(chan).inv(),
        cfg_wf(*cfg),
        old(chan)@.lost < 0xFFFF_FFFF_FFFF_FFFFu64,
    ensures
        final(table).inv(),
        final(chan).inv(),
        final(table)@ == exit_table_post(old(table)@, *cfg, uid, pid),
        final(chan)@ == match exit_emission(old(table)@, *cfg, uid, pid, comm@, retval) {
            Some(e) => push_post(old(chan)@, encode_spec(e)),
            None => old(chan)@,
        },
        r == 0 <==> (filtered_out(*cfg, uid) || old(table)@.dom().contains(pid as int)),
{
    match try_execsnoop_exit(table, chan, cfg, uid, pid, comm, retval) {
        Ok(_) => 0,
        Err(_) => 1,
    }
}

} // verus!
