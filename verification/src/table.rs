//! The correlation table: a bounded keyed store that joins the two
//! asynchronous observations of one exec call. Keyed by process identifier,
//! it offers insert-if-absent (`begin`), lookup (`get`) and unconditional
//! release (`end` / `take`); beyond its fixed capacity new insertions fail
//! silently.

use vstd::prelude::*;

use crate::record::{wf_event, Event, EventSpec};

verus! {

/// Bound on concurrently in-flight entries.
pub const MAX_ENTRIES: u32 = 10240;

/// Bounded keyed store mapping an in-flight process identifier to its
/// partially built record.
pub struct ExecTable {
    entries: Vec<(i32, Event)>,
}

/// The keyed contents of an association list, later entries shadowing
/// earlier ones (the table keeps its keys unique, so none shadow).
pub closed spec fn entries_map(s: Seq<(i32, Event)>) -> Map<int, EventSpec>
    decreases s.len(),
{
    if s.len() == 0 {
        Map::empty()
    } else {
        entries_map(s.drop_last()).insert(s.last().0 as int, s.last().1@)
    }
}

/// Some entry of `s` carries the key `k`.
pub closed spec fn has_key(s: Seq<(i32, Event)>, k: int) -> bool {
    exists|i: int| 0 <= i < s.len() && (#[trigger] s[i]).0 as int == k
}

/// No two entries share a key.
pub closed spec fn unique_keys(s: Seq<(i32, Event)>) -> bool {
    forall|i: int, j: int| 0 <= i < j < s.len() ==> (#[trigger] s[i]).0 != (#[trigger] s[j]).0
}

proof fn lemma_entries_map_dom(s: Seq<(i32, Event)>)
    ensures
        entries_map(s).dom().finite(),
        forall|k: int| #[trigger] entries_map(s).dom().contains(k) <==> has_key(s, k),
    decreases s.len(),
{
    if s.len() == 0 {
        assert forall|k: int| #[trigger]
            entries_map(s).dom().contains(k) <==> has_key(s, k) by {
            assert(!has_key(s, k));
        }
    } else {
        let s0 = s.drop_last();
        lemma_entries_map_dom(s0);
        assert forall|k: int| #[trigger]
            entries_map(s).dom().contains(k) <==> has_key(s, k) by {
            if entries_map(s).dom().contains(k) {
                if k == s.last().0 as int {
                    assert((s[s.len() - 1]).0 as int == k);
                    assert(has_key(s, k));
                } else {
                    let i = choose|i: int|
                        0 <= i < s0.len() && (#[trigger] s0[i]).0 as int == k;
                    assert((s[i]).0 as int == k);
                    assert(has_key(s, k));
                }
            }
            if has_key(s, k) {
                let i = choose|i: int| 0 <= i < s.len() && (#[trigger] s[i]).0 as int == k;
                if i == s.len() - 1 {
                    assert(entries_map(s).dom().contains(k));
                } else {
                    assert((s0[i]).0 as int == k);
                    assert(has_key(s0, k));
                }
            }
        }
    }
}

proof fn lemma_entries_map_len(s: Seq<(i32, Event)>)
    requires
        unique_keys(s),
    ensures
        entries_map(s).dom().len() == s.len(),
    decreases s.len(),
{
    broadcast use vstd::set::axiom_set_insert_len;

    if s.len() == 0 {
        assert(entries_map(s).dom() =~= Set::<int>::empty());
    } else {
        let s0 = s.drop_last();
        assert(unique_keys(s0)) by {
            assert forall|i: int, j: int| 0 <= i < j < s0.len() implies (#[trigger] s0[i]).0
                != (#[trigger] s0[j]).0 by {
                assert(s[i] == s0[i] && s[j] == s0[j]);
            }
        }
        lemma_entries_map_len(s0);
        lemma_entries_map_dom(s0);
        let k = s.last().0 as int;
        assert(!has_key(s0, k)) by {
            if has_key(s0, k) {
                let i = choose|i: int|
                    0 <= i < s0.len() && (#[trigger] s0[i]).0 as int == k;
                assert((s[i]).0 == (s[s.len() - 1]).0);
            }
        }
        assert(entries_map(s).dom() == entries_map(s0).dom().insert(k));
    }
}

proof fn lemma_entries_map_index(s: Seq<(i32, Event)>, i: int)
    requires
        unique_keys(s),
        0 <= i < s.len(),
    ensures
        entries_map(s).dom().contains(s[i].0 as int),
        entries_map(s)[s[i].0 as int] == s[i].1@,
    decreases s.len(),
{
    lemma_entries_map_dom(s);
    assert((s[i]).0 as int == s[i].0 as int);
    assert(has_key(s, s[i].0 as int));
    if i == s.len() - 1 {
    } else {
        let s0 = s.drop_last();
        assert(unique_keys(s0)) by {
            assert forall|p: int, q: int| 0 <= p < q < s0.len() implies (#[trigger] s0[p]).0
                != (#[trigger] s0[q]).0 by {
                assert(s[p] == s0[p] && s[q] == s0[q]);
            }
        }
        assert(s0[i] == s[i]);
        lemma_entries_map_index(s0, i);
        assert((s[i]).0 != (s[s.len() - 1]).0);
    }
}

proof fn lemma_entries_map_remove(s: Seq<(i32, Event)>, i: int)
    requires
        unique_keys(s),
        0 <= i < s.len(),
    ensures
        entries_map(s.remove(i)) == entries_map(s).remove(s[i].0 as int),
    decreases s.len(),
{
    let k = s[i].0 as int;
    let s0 = s.drop_last();
    assert(unique_keys(s0)) by {
        assert forall|p: int, q: int| 0 <= p < q < s0.len() implies (#[trigger] s0[p]).0
            != (#[trigger] s0[q]).0 by {
            assert(s[p] == s0[p] && s[q] == s0[q]);
        }
    }
    if i == s.len() - 1 {
        assert(s.remove(i) =~= s0);
        lemma_entries_map_dom(s0);
        assert(!has_key(s0, k)) by {
            if has_key(s0, k) {
                let j = choose|j: int|
                    0 <= j < s0.len() && (#[trigger] s0[j]).0 as int == k;
                assert((s[j]).0 == (s[s.len() - 1]).0);
            }
        }
        assert(entries_map(s0) =~= entries_map(s).remove(k));
    } else {
        let t = s.remove(i);
        assert(t.len() == s.len() - 1);
        assert(t.drop_last() =~= s0.remove(i));
        assert(t.last() == s.last());
        assert(s0[i] == s[i]);
        lemma_entries_map_remove(s0, i);
        assert(entries_map(t) == entries_map(s0.remove(i)).insert(
            s.last().0 as int,
            s.last().1@,
        ));
        assert(k != s.last().0 as int) by {
            assert((s[i]).0 != (s[s.len() - 1]).0);
        }
        assert(entries_map(s0).remove(k).insert(s.last().0 as int, s.last().1@)
            =~= entries_map(s0).insert(s.last().0 as int, s.last().1@).remove(k));
    }
}

/// A begin succeeds exactly when the key is absent and the table still has
/// capacity.
pub open spec fn begin_ok(m: Map<int, EventSpec>, pid: i32) -> bool {
    !m.dom().contains(pid as int) && m.dom().len() < MAX_ENTRIES
}

/// The table after `begin(pid)`: the record is added on success, nothing
/// changes on duplicate or at capacity.
pub open spec fn begin_post(m: Map<int, EventSpec>, pid: i32, ev: EventSpec) -> Map<
    int,
    EventSpec,
> {
    if begin_ok(m, pid) {
        m.insert(pid as int, ev)
    } else {
        m
    }
}

/// The table after `end(pid)` or `take(pid)`: the entry is gone, whether or
/// not it was there.
pub open spec fn end_post(m: Map<int, EventSpec>, pid: i32) -> Map<int, EventSpec> {
    if m.dom().contains(pid as int) {
        m.remove(pid as int)
    } else {
        m
    }
}

/// Duplicate rejection: once a `begin(pid)` has succeeded, a second
/// `begin(pid)` with no intervening `end(pid)` fails and leaves the table
/// unchanged.
pub proof fn lemma_begin_duplicate(
    m: Map<int, EventSpec>,
    pid: i32,
    e1: EventSpec,
    e2: EventSpec,
)
    requires
        begin_ok(m, pid),
    ensures
        !begin_ok(begin_post(m, pid, e1), pid),
        begin_post(begin_post(m, pid, e1), pid, e2) == begin_post(m, pid, e1),
{
}

/// Release is final: after `end(pid)` the table no longer holds `pid`, so a
/// subsequent `get(pid)` returns not-found.
pub proof fn lemma_end_then_get(m: Map<int, EventSpec>, pid: i32)
    ensures
        !end_post(m, pid).dom().contains(pid as int),
{
}

impl View for ExecTable {
    type V = Map<int, EventSpec>;

    closed spec fn view(&self) -> Map<int, EventSpec> {
        entries_map(self.entries@)
    }
}

impl ExecTable {
    /// Everything the table maintains: unique keys, bounded occupancy, and
    /// well-formed stored records.
    pub closed spec fn inv(&self) -> bool {
        &&& unique_keys(self.entries@)
        &&& self.entries@.len() <= MAX_ENTRIES
        &&& forall|i: int|
            0 <= i < self.entries@.len() ==> wf_event((#[trigger] self.entries@[i]).1@)
    }

    /// An empty table.
    pub fn new() -> (t: ExecTable)
        ensures
            t.inv(),
            t@ == Map::<int, EventSpec>::empty(),
            t@.dom().len() == 0,
    {
        let t = ExecTable { entries: Vec::new() };
        proof {
            lemma_entries_map_len(t.entries@);
        }
        t
    }

    fn find_idx(&self, pid: i32) -> (r: Option<usize>)
        ensures
            match r {
                Some(i) => i < self.entries@.len() && self.entries@[i as int].0 == pid,
                None => !has_key(self.entries@, pid as int),
            },
    {
        let mut i: usize = 0;
        while i < self.entries.len()
            invariant
                i <= self.entries@.len(),
                forall|j: int| 0 <= j < i ==> (#[trigger] self.entries@[j]).0 != pid,
            decreases self.entries@.len() - i,
        {
            if self.entries[i].0 == pid {
                return Some(i);
            }
            i += 1;
        }
        proof {
            if has_key(self.entries@, pid as int) {
                let j = choose|j: int|
                    0 <= j < self.entries@.len() && (#[trigger] self.entries@[j]).0 as int
                        == pid as int;
                assert((self.entries@[j]).0 != pid);
            }
        }
        None
    }

    /// How many records are currently in flight.
    pub fn len(&self) -> (n: usize)
        requires
            self.inv(),
        ensures
            n == self@.dom().len(),
    {
        proof {
            lemma_entries_map_len(self.entries@);
        }
        self.entries.len()
    }

    /// Whether a record for `pid` is currently in flight.
    pub fn contains(&self, pid: i32) -> (b: bool)
        requires
            self.inv(),
        ensures
            b == self@.dom().contains(pid as int),
    {
        proof {
            lemma_entries_map_dom(self.entries@);
        }
        match self.find_idx(pid) {
            Some(i) => {
                proof {
                    assert((self.entries@[i as int]).0 as int == pid as int);
                    assert(has_key(self.entries@, pid as int));
                }
                true
            }
            None => false,
        }
    }

    /// Insert-if-absent: creates the record at key `pid` only if none
    /// exists and the table has capacity; otherwise the call fails silently
    /// and the table is unchanged.
    pub fn begin(&mut self, pid: i32, ev: Event) -> (r: bool)
        requires
            old(self).inv(),
            wf_event(ev@),
        ensures
            final(self).inv(),
            r == begin_ok(old(self)@, pid),
            final(self)@ == begin_post(old(self)@, pid, ev@),
    {
        proof {
            lemma_entries_map_dom(self.entries@);
            lemma_entries_map_len(self.entries@);
        }
        match self.find_idx(pid) {
            Some(i) => {
                proof {
                    assert((self.entries@[i as int]).0 as int == pid as int);
                    assert(has_key(self.entries@, pid as int));
                }
                false
            }
            None => {
                if self.entries.len() >= MAX_ENTRIES as usize {
                    false
                } else {
                    let ghost s0 = self.entries@;
                    self.entries.push((pid, ev));
                    proof {
                        assert(self.entries@.drop_last() =~= s0);
                        assert(self.entries@.last() == (pid, ev));
                        assert(final(self)@ == entries_map(s0).insert(pid as int, ev@));
                        assert forall|p: int, q: int|
                            0 <= p < q < self.entries@.len() implies (#[trigger] self
                            .entries@[p]).0 != (#[trigger] self.entries@[q]).0 by {
                            if q < self.entries@.len() - 1 {
                                assert(s0[p] == self.entries@[p] && s0[q] == self.entries@[q]);
                            } else {
                                assert(self.entries@[p] == s0[p]);
                                assert((s0[p]).0 as int != pid as int);
                            }
                        }
                    }
                    true
                }
            }
        }
    }

    /// Looks up the in-flight record for `pid`; not-found means the entry
    /// observation was filtered or capacity-dropped, and is not an error.
    pub fn get(&self, pid: i32) -> (r: Option<&Event>)
        requires
            self.inv(),
        ensures
            match r {
                Some(e) => self@.dom().contains(pid as int) && e@ == self@[pid as int]
                    && wf_event(e@),
                None => !self@.dom().contains(pid as int),
            },
    {
        proof {
            lemma_entries_map_dom(self.entries@);
        }
        match self.find_idx(pid) {
            Some(i) => {
                proof {
                    lemma_entries_map_index(self.entries@, i as int);
                }
                Some(&self.entries[i].1)
            }
            None => None,
        }
    }

    /// Removes and hands back the in-flight record for `pid`, if any: the
    /// sole deletion path, run unconditionally by the exit probe.
    pub fn take(&mut self, pid: i32) -> (r: Option<Event>)
        requires
            old(self).inv(),
        ensures
            final(self).inv(),
            final(self)@ == end_post(old(self)@, pid),
            r is Some <==> old(self)@.dom().contains(pid as int),
            match r {
                Some(ev) => ev@ == old(self)@[pid as int] && wf_event(ev@),
                None => !old(self)@.dom().contains(pid as int),
            },
    {
        proof {
            lemma_entries_map_dom(self.entries@);
        }
        match self.find_idx(pid) {
            Some(i) => {
                proof {
                    lemma_entries_map_index(self.entries@, i as int);
                    lemma_entries_map_remove(self.entries@, i as int);
                    assert((self.entries@[i as int]).0 as int == pid as int);
                    assert(has_key(self.entries@, pid as int));
                }
                let ghost s0 = self.entries@;
                let (_, ev) = self.entries.remove(i);
                proof {
                    assert(self.entries@ =~= s0.remove(i as int));
                    assert forall|p: int, q: int|
                        0 <= p < q < self.entries@.len() implies (#[trigger] self.entries@[p]).0
                        != (#[trigger] self.entries@[q]).0 by {
                        let p0: int = if p < i { p } else { p + 1 };
                        let q0: int = if q < i { q } else { q + 1 };
                        assert(self.entries@[p] == s0[p0] && self.entries@[q] == s0[q0]);
                    }
                    assert forall|j: int| 0 <= j < self.entries@.len() implies wf_event(
                        (#[trigger] self.entries@[j]).1@,
                    ) by {
                        let j0: int = if j < i { j } else { j + 1 };
                        assert(self.entries@[j] == s0[j0]);
                    }
                }
                Some(ev)
            }
            None => None,
        }
    }

    /// Unconditionally removes the entry for `pid`: called exactly once per
    /// successful `begin`, on every path, so the bounded table cannot leak.
    pub fn end(&mut self, pid: i32)
        requires
            old(self).inv(),
        ensures
            final(self).inv(),
            final(self)@ == end_post(old(self)@, pid),
    {
        let _ = self.take(pid);
    }
}

} // verus!
