//! All threads, by number.

use vstd::prelude::*;

verus! {

/// A thread and the process it belongs to.
#[derive(Clone, Copy, Debug, PartialEq, Eq, Structural)]
pub struct Entry {
    pub tid: u64,
    pub tgid: u64,
}

/// The threads, the lowest number first and each once.
pub struct Registry {
    entries: Vec<Entry>,
}

/// The numbers rise.
pub open spec fn rising(s: Seq<Entry>) -> bool {
    forall|i: int, j: int| 0 <= i < j < s.len() ==> (#[trigger] s[i]).tid < (#[trigger] s[j]).tid
}

/// A thread is among others.
pub open spec fn known(s: Seq<Entry>, tid: u64) -> bool {
    exists|i: int| 0 <= i < s.len() && (#[trigger] s[i]).tid == tid
}

/// The place of the first thread of a process, from place `i` on.
pub open spec fn first_of(s: Seq<Entry>, tgid: u64, i: int) -> Option<int>
    decreases s.len() - i,
{
    if i < 0 || i >= s.len() {
        None
    } else if s[i].tgid == tgid {
        Some(i)
    } else {
        first_of(s, tgid, i + 1)
    }
}

/// The numbers of processes rise.
pub open spec fn rising_ids(s: Seq<u64>) -> bool {
    forall|i: int, j: int| 0 <= i < j < s.len() ==> #[trigger] s[i] < #[trigger] s[j]
}

impl View for Registry {
    type V = Seq<Entry>;

    closed spec fn view(&self) -> Seq<Entry> {
        self.entries@
    }
}

impl Registry {
    /// The threads stand in the order of their numbers.
    pub open spec fn wf(&self) -> bool {
        rising(self@)
    }

    /// Starts without threads.
    pub fn new() -> (registry: Self)
        ensures
            registry.wf(),
            registry@.len() == 0,
    {
        Registry { entries: Vec::new() }
    }

    /// Finds the place of a number: the first that is not lower.
    fn place(&self, tid: u64) -> (i: usize)
        requires
            self.wf(),
        ensures
            i <= self@.len(),
            forall|j: int| 0 <= j < i ==> (#[trigger] self@[j]).tid < tid,
            forall|j: int| i <= j < self@.len() ==> (#[trigger] self@[j]).tid >= tid,
    {
        let mut i: usize = 0;
        while i < self.entries.len() && self.entries[i].tid < tid
            invariant
                i <= self@.len(),
                self.wf(),
                forall|j: int| 0 <= j < i ==> (#[trigger] self@[j]).tid < tid,
            decreases self@.len() - i,
        {
            i = i + 1;
        }
        proof {
            if i < self@.len() {
                assert forall|j: int| i <= j < self@.len() implies (#[trigger] self@[j]).tid
                    >= tid by {
                    if j > i {
                        assert(self@[i as int].tid < self@[j].tid);
                    }
                }
            }
        }
        i
    }

    /// Adds a thread; one that is known under the number is replaced.
    pub fn add_task(&mut self, tid: u64, tgid: u64)
        requires
            old(self).wf(),
        ensures
            final(self).wf(),
            forall|e: Entry| #[trigger] final(self)@.contains(e) <==> e == (Entry { tid, tgid }) || (
            old(self)@.contains(e) && e.tid != tid),
            final(self)@.len() == old(self)@.len() + if known(old(self)@, tid) {
                0int
            } else {
                1int
            },
    {
        let i: usize = self.place(tid);
        let ghost s = self@;
        let entry = Entry { tid, tgid };
        if i < self.entries.len() && self.entries[i].tid == tid {
            self.entries[i] = entry;
            proof {
                let n = s.update(i as int, entry);
                assert(s[i as int].tid == tid);
                assert forall|e: Entry| #[trigger] n.contains(e) <==> e == entry || (s.contains(e)
                    && e.tid != tid) by {
                    if n.contains(e) {
                        let k = choose|k: int| 0 <= k < n.len() && n[k] == e;
                        if k != i {
                            assert(s[k] == e);
                        }
                    }
                    if e == entry {
                        assert(n[i as int] == e);
                    }
                    if s.contains(e) && e.tid != tid {
                        let k = choose|k: int| 0 <= k < s.len() && s[k] == e;
                        assert(n[k] == e);
                    }
                }
            }
        } else {
            self.entries.insert(i, entry);
            proof {
                let n = s.insert(i as int, entry);
                assert(!known(s, tid)) by {
                    if known(s, tid) {
                        let k = choose|k: int| 0 <= k < s.len() && (#[trigger] s[k]).tid == tid;
                        assert(k >= i);
                        if k > i {
                            assert(s[i as int].tid < s[k].tid);
                        }
                    }
                }
                assert forall|a: int, b: int| 0 <= a < b < n.len() implies (#[trigger] n[a]).tid < (
                #[trigger] n[b]).tid by {
                    let x = if a < i {
                        a
                    } else {
                        a - 1
                    };
                    let y = if b < i {
                        b
                    } else {
                        b - 1
                    };
                    if a == i {
                        assert(n[b] == s[y]);
                        assert(s[y].tid >= tid);
                        assert(s[y].tid != tid);
                    } else if b == i {
                        assert(n[a] == s[x]);
                    } else {
                        assert(n[a] == s[x] && n[b] == s[y]);
                    }
                }
                assert forall|e: Entry| #[trigger] n.contains(e) <==> e == entry || (s.contains(e)
                    && e.tid != tid) by {
                    if n.contains(e) {
                        let k = choose|k: int| 0 <= k < n.len() && n[k] == e;
                        if k < i {
                            assert(s[k] == e);
                        } else if k > i {
                            assert(s[k - 1] == e);
                        }
                    }
                    if e == entry {
                        assert(n[i as int] == e);
                    }
                    if s.contains(e) {
                        let k = choose|k: int| 0 <= k < s.len() && s[k] == e;
                        if k < i {
                            assert(n[k] == e);
                        } else {
                            assert(n[k + 1] == e);
                        }
                    }
                }
            }
        }
    }

    /// Returns the process of a thread.
    pub fn tid2task(&self, tid: u64) -> (tgid: Option<u64>)
        requires
            self.wf(),
        ensures
            match tgid {
                Some(g) => self@.contains(Entry { tid, tgid: g }),
                None => !known(self@, tid),
            },
    {
        let i: usize = self.place(tid);
        if i < self.entries.len() && self.entries[i].tid == tid {
            assert(self@[i as int] == (Entry { tid, tgid: self@[i as int].tgid }));
            Some(self.entries[i].tgid)
        } else {
            None
        }
    }

    /// Forgets a thread; one that is not known stays so.
    pub fn remove_from_tid2task(&mut self, tid: u64)
        requires
            old(self).wf(),
        ensures
            final(self).wf(),
            !known(final(self)@, tid),
            forall|e: Entry|
                e.tid != tid ==> (#[trigger] final(self)@.contains(e) <==> old(self)@.contains(e)),
    {
        let i: usize = self.place(tid);
        let ghost s = self@;
        if i < self.entries.len() && self.entries[i].tid == tid {
            self.entries.remove(i);
            proof {
                let n = s.remove(i as int);
                assert forall|a: int| 0 <= a < n.len() implies #[trigger] n[a] == s[if a < i {
                    a
                } else {
                    a + 1
                }] by {}
                assert forall|a: int, b: int| 0 <= a < b < n.len() implies (#[trigger] n[a]).tid < (
                #[trigger] n[b]).tid by {
                    assert(n[a] == s[if a < i {
                        a
                    } else {
                        a + 1
                    }]);
                    assert(n[b] == s[if b < i {
                        b
                    } else {
                        b + 1
                    }]);
                }
                assert(!known(n, tid)) by {
                    if known(n, tid) {
                        let k = choose|k: int| 0 <= k < n.len() && (#[trigger] n[k]).tid == tid;
                        if k < i {
                            assert(s[k].tid < s[i as int].tid);
                        } else {
                            assert(s[i as int].tid < s[k + 1].tid);
                        }
                    }
                }
                assert forall|e: Entry| e.tid != tid implies (#[trigger] n.contains(e)
                    <==> s.contains(e)) by {
                    if n.contains(e) {
                        let k = choose|k: int| 0 <= k < n.len() && n[k] == e;
                        assert(s.contains(s[if k < i {
                            k
                        } else {
                            k + 1
                        }]));
                    }
                    if s.contains(e) {
                        let k = choose|k: int| 0 <= k < s.len() && s[k] == e;
                        let m = if k < i {
                            k
                        } else {
                            k - 1
                        };
                        assert(n[m] == e);
                    }
                }
            }
        } else {
            proof {
                if known(s, tid) {
                    let k = choose|k: int| 0 <= k < s.len() && (#[trigger] s[k]).tid == tid;
                    if k > i {
                        assert(s[i as int].tid < s[k].tid);
                    }
                }
            }
        }
    }

    /// Returns the thread that stands for a process: the one with its number, else the first.
    pub fn get_process(&self, pid: u64) -> (tid: Option<u64>)
        requires
            self.wf(),
        ensures
            tid == if self@.contains(Entry { tid: pid, tgid: pid }) {
                Some(pid)
            } else {
                match first_of(self@, pid, 0) {
                    Some(i) => Some(self@[i].tid),
                    None => None,
                }
            },
    {
        let i: usize = self.place(pid);
        if i < self.entries.len() && self.entries[i].tid == pid && self.entries[i].tgid == pid {
            assert(self@[i as int] == (Entry { tid: pid, tgid: pid }));
            return Some(pid);
        }
        proof {
            if self@.contains(Entry { tid: pid, tgid: pid }) {
                let k = choose|k: int|
                    0 <= k < self@.len() && self@[k] == (Entry { tid: pid, tgid: pid });
                assert(k >= i);
                if k > i {
                    assert(self@[i as int].tid < self@[k].tid);
                }
            }
        }
        let mut j: usize = 0;
        while j < self.entries.len()
            invariant
                j <= self@.len(),
                first_of(self@, pid, 0) == first_of(self@, pid, j as int),
                !self@.contains(Entry { tid: pid, tgid: pid }),
            decreases self@.len() - j,
        {
            if self.entries[j].tgid == pid {
                return Some(self.entries[j].tid);
            }
            j = j + 1;
        }
        None
    }

    /// Returns the threads of a process, the lowest number first.
    pub fn threads_of(&self, pid: u64) -> (tids: Vec<u64>)
        ensures
            forall|tid: u64|
                #[trigger] tids@.contains(tid) <==> self@.contains(Entry { tid, tgid: pid }),
            self.wf() ==> rising_ids(tids@),
    {
        let mut tids: Vec<u64> = Vec::new();
        let mut i: usize = 0;
        while i < self.entries.len()
            invariant
                i <= self@.len(),
                forall|tid: u64|
                    #[trigger] tids@.contains(tid) <==> exists|j: int|
                        0 <= j < i && #[trigger] self@[j] == (Entry { tid, tgid: pid }),
                self.wf() ==> rising_ids(tids@),
                forall|a: int|
                    0 <= a < tids@.len() ==> exists|j: int|
                        0 <= j < i && #[trigger] self@[j] == (Entry { tid: #[trigger] tids@[a], tgid: pid }),
            decreases self@.len() - i,
        {
            let entry = self.entries[i];
            let ghost t0 = tids@;
            if entry.tgid == pid {
                tids.push(entry.tid);
                proof {
                    assert(self@[i as int] == entry);
                    assert forall|a: int| 0 <= a < tids@.len() implies exists|j: int|
                        0 <= j < i + 1 && #[trigger] self@[j] == (Entry { tid: #[trigger] tids@[a], tgid: pid }) by {
                        if a < t0.len() {
                            assert(tids@[a] == t0[a]);
                        } else {
                            assert(self@[i as int] == (Entry { tid: tids@[a], tgid: pid }));
                        }
                    }
                    if self.wf() {
                        assert forall|a: int, b: int| 0 <= a < b < tids@.len() implies #[trigger] tids@[a]
                            < #[trigger] tids@[b] by {
                            assert(tids@[a] == t0[a]);
                            if b < t0.len() {
                                assert(tids@[b] == t0[b]);
                            } else {
                                let j = choose|j: int|
                                    0 <= j < i && #[trigger] self@[j] == (Entry { tid: t0[a], tgid: pid });
                                assert(self@[j].tid < self@[i as int].tid);
                            }
                        }
                    }
                    assert forall|tid: u64|
                        #[trigger] tids@.contains(tid) <==> exists|j: int|
                            0 <= j < i + 1 && #[trigger] self@[j] == (Entry { tid, tgid: pid }) by {
                        if tids@.contains(tid) {
                            let k = choose|k: int| 0 <= k < tids@.len() && tids@[k] == tid;
                            if k == t0.len() {
                                assert(self@[i as int] == (Entry { tid, tgid: pid }));
                            } else {
                                assert(t0[k] == tid);
                                assert(t0.contains(tid));
                            }
                        }
                        if exists|j: int| 0 <= j < i + 1 && #[trigger] self@[j] == (Entry { tid, tgid: pid }) {
                            let j = choose|j: int|
                                0 <= j < i + 1 && #[trigger] self@[j] == (Entry { tid, tgid: pid });
                            if j < i {
                                assert(t0.contains(tid));
                                let k = choose|k: int| 0 <= k < t0.len() && t0[k] == tid;
                                assert(tids@[k] == tid);
                            } else {
                                assert(tids@[t0.len() as int] == tid);
                            }
                        }
                    }
                }
            }
            i = i + 1;
        }
        proof {
            assert forall|tid: u64|
                #[trigger] tids@.contains(tid) <==> self@.contains(Entry { tid, tgid: pid }) by {
                if self@.contains(Entry { tid, tgid: pid }) {
                    let j = choose|j: int|
                        0 <= j < self@.len() && self@[j] == (Entry { tid, tgid: pid });
                    assert(self@[j] == (Entry { tid, tgid: pid }));
                }
            }
        }
        tids
    }

    /// Forgets the threads of a process; returns them.
    pub fn remove_process(&mut self, pid: u64) -> (tids: Vec<u64>)
        requires
            old(self).wf(),
        ensures
            final(self).wf(),
            forall|tid: u64|
                #[trigger] tids@.contains(tid) <==> old(self)@.contains(Entry { tid, tgid: pid }),
            forall|e: Entry|
                #[trigger] final(self)@.contains(e) <==> old(self)@.contains(e) && e.tgid != pid,
    {
        let tids = self.threads_of(pid);
        let mut i: usize = 0;
        while i < tids.len()
            invariant
                i <= tids@.len(),
                self.wf(),
                old(self).wf(),
                forall|tid: u64|
                    #[trigger] tids@.contains(tid) <==> old(self)@.contains(Entry { tid, tgid: pid }),
                forall|e: Entry|
                    #[trigger] self@.contains(e) <==> old(self)@.contains(e) && !(exists|k: int|
                        0 <= k < i && #[trigger] tids@[k] == e.tid),
            decreases tids@.len() - i,
        {
            let ghost before = self@;
            let tid: u64 = tids[i];
            self.remove_from_tid2task(tid);
            proof {
                assert forall|e: Entry|
                    #[trigger] self@.contains(e) <==> old(self)@.contains(e) && !(exists|k: int|
                        0 <= k < i + 1 && #[trigger] tids@[k] == e.tid) by {
                    if e.tid == tid {
                        if self@.contains(e) {
                            let k = choose|k: int| 0 <= k < self@.len() && self@[k] == e;
                            assert(self@[k].tid == tid);
                            assert(known(self@, tid));
                        }
                        assert(tids@[i as int] == e.tid);
                    } else {
                        assert(self@.contains(e) <==> before.contains(e));
                    }
                }
            }
            i = i + 1;
        }
        proof {
            assert forall|e: Entry|
                #[trigger] self@.contains(e) <==> old(self)@.contains(e) && e.tgid != pid by {
                if old(self)@.contains(e) {
                    if e.tgid == pid {
                        assert(tids@.contains(e.tid));
                        let k = choose|k: int| 0 <= k < tids@.len() && tids@[k] == e.tid;
                        assert(tids@[k] == e.tid);
                    } else if exists|k: int| 0 <= k < tids@.len() && #[trigger] tids@[k] == e.tid {
                        let k = choose|k: int| 0 <= k < tids@.len() && #[trigger] tids@[k] == e.tid;
                        assert(tids@.contains(e.tid));
                        lemma_one_entry(old(self)@, e, Entry { tid: e.tid, tgid: pid });
                    }
                }
            }
        }
        tids
    }

    /// Tells whether a process has a thread besides one.
    pub fn has_other_thread(&self, pid: u64, tid: u64) -> (yes: bool)
        ensures
            yes == exists|i: int|
                0 <= i < self@.len() && (#[trigger] self@[i]).tgid == pid && self@[i].tid != tid,
    {
        let mut i: usize = 0;
        while i < self.entries.len()
            invariant
                i <= self@.len(),
                forall|j: int|
                    0 <= j < i ==> !((#[trigger] self@[j]).tgid == pid && self@[j].tid != tid),
            decreases self@.len() - i,
        {
            let entry = self.entries[i];
            if entry.tgid == pid && entry.tid != tid {
                assert(self@[i as int] == entry);
                return true;
            }
            i = i + 1;
        }
        false
    }

    /// Returns the processes, the lowest number first and each once.
    pub fn list_pids(&self) -> (pids: Vec<u64>)
        ensures
            rising_ids(pids@),
            forall|pid: u64|
                #[trigger] pids@.contains(pid) <==> exists|i: int|
                    0 <= i < self@.len() && (#[trigger] self@[i]).tgid == pid,
    {
        let mut pids: Vec<u64> = Vec::new();
        let mut i: usize = 0;
        while i < self.entries.len()
            invariant
                i <= self@.len(),
                rising_ids(pids@),
                forall|pid: u64|
                    #[trigger] pids@.contains(pid) <==> exists|j: int|
                        0 <= j < i && (#[trigger] self@[j]).tgid == pid,
            decreases self@.len() - i,
        {
            let pid: u64 = self.entries[i].tgid;
            let ghost p0 = pids@;
            insert_id(&mut pids, pid);
            proof {
                assert(self@[i as int].tgid == pid);
                assert forall|q: u64|
                    #[trigger] pids@.contains(q) <==> exists|j: int|
                        0 <= j < i + 1 && (#[trigger] self@[j]).tgid == q by {
                    if pids@.contains(q) && q != pid {
                        assert(p0.contains(q));
                    }
                    if exists|j: int| 0 <= j < i + 1 && (#[trigger] self@[j]).tgid == q {
                        let j = choose|j: int| 0 <= j < i + 1 && (#[trigger] self@[j]).tgid == q;
                        if j < i {
                            assert(p0.contains(q));
                        }
                    }
                }
            }
            i = i + 1;
        }
        pids
    }

    /// Returns the number of threads.
    pub fn task_count_in_mng(&self) -> (count: usize)
        ensures
            count == self@.len(),
    {
        self.entries.len()
    }
}

/// A number belongs to one thread.
proof fn lemma_one_entry(s: Seq<Entry>, a: Entry, b: Entry)
    requires
        rising(s),
        s.contains(a),
        s.contains(b),
        a.tid == b.tid,
    ensures
        a == b,
{
    let i = choose|i: int| 0 <= i < s.len() && s[i] == a;
    let j = choose|j: int| 0 <= j < s.len() && s[j] == b;
    if i < j {
        assert(s[i].tid < s[j].tid);
    } else if j < i {
        assert(s[j].tid < s[i].tid);
    }
}

/// Puts a number where it belongs, unless it is there.
fn insert_id(ids: &mut Vec<u64>, id: u64)
    requires
        rising_ids(old(ids)@),
    ensures
        rising_ids(final(ids)@),
        forall|x: u64| #[trigger] final(ids)@.contains(x) <==> x == id || old(ids)@.contains(x),
{
    let ghost s = ids@;
    let mut i: usize = 0;
    while i < ids.len() && ids[i] < id
        invariant
            i <= ids@.len(),
            ids@ == s,
            forall|j: int| 0 <= j < i ==> #[trigger] ids@[j] < id,
        decreases ids@.len() - i,
    {
        i = i + 1;
    }
    if i < ids.len() && ids[i] == id {
        assert(s[i as int] == id);
        return;
    }
    ids.insert(i, id);
    proof {
        let n = s.insert(i as int, id);
        assert forall|a: int, b: int| 0 <= a < b < n.len() implies #[trigger] n[a]
            < #[trigger] n[b] by {
            let x = if a < i {
                a
            } else {
                a - 1
            };
            let y = if b < i {
                b
            } else {
                b - 1
            };
            if a == i {
                assert(n[b] == s[y]);
                if y > i {
                    assert(s[i as int] < s[y]);
                }
            } else if b == i {
                assert(n[a] == s[x]);
            } else {
                assert(n[a] == s[x] && n[b] == s[y]);
            }
        }
        assert forall|x: u64| #[trigger] n.contains(x) <==> x == id || s.contains(x) by {
            if n.contains(x) {
                let k = choose|k: int| 0 <= k < n.len() && n[k] == x;
                if k < i {
                    assert(s[k] == x);
                } else if k > i {
                    assert(s[k - 1] == x);
                }
            }
            if x == id {
                assert(n[i as int] == x);
            }
            if s.contains(x) {
                let k = choose|k: int| 0 <= k < s.len() && s[k] == x;
                if k < i {
                    assert(n[k] == x);
                } else {
                    assert(n[k + 1] == x);
                }
            }
        }
    }
}

} // verus!
