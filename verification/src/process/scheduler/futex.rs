//! Tasks that wait for a word of memory to change.

use vstd::prelude::*;

use std::collections::BTreeMap;

verus! {

broadcast use {vstd::std_specs::btree::group_btree_axioms, vstd::laws_cmp::group_laws_cmp};

/// A task that waits, and the bits by which it can be woken.
#[derive(Clone, Copy, Debug, PartialEq, Eq, Structural)]
pub struct FutexWaiter {
    pub tid: u64,
    pub bitset: u32,
}

/// The queues of the words that are waited for, by the number of the word.
///
/// A task waits in one place at most, and the place is known.
pub struct FutexTable {
    queues: BTreeMap<u64, Vec<FutexWaiter>>,
    places: BTreeMap<u64, u64>,
}

/// A task stands in a queue.
pub open spec fn stands_in(s: Seq<FutexWaiter>, tid: u64) -> bool {
    exists|i: int| 0 <= i < s.len() && (#[trigger] s[i]).tid == tid
}

/// No task stands in a queue twice.
pub open spec fn each_once(s: Seq<FutexWaiter>) -> bool {
    forall|i: int, j: int|
        0 <= i < j < s.len() ==> (#[trigger] s[i]).tid != (#[trigger] s[j]).tid
}

/// The first waiter from place `i` on that the bits wake.
pub open spec fn first_match(s: Seq<FutexWaiter>, bitset: u32, i: int) -> Option<int>
    decreases s.len() - i,
{
    if i < 0 || i >= s.len() {
        None
    } else if s[i].bitset & bitset != 0 {
        Some(i)
    } else {
        first_match(s, bitset, i + 1)
    }
}

/// The waiters that are woken, at most `count`, in their order.
pub open spec fn woken(s: Seq<FutexWaiter>, count: int, bitset: u32) -> Seq<u64>
    decreases count,
{
    if count <= 0 {
        Seq::empty()
    } else {
        match first_match(s, bitset, 0) {
            None => Seq::empty(),
            Some(k) => seq![s[k].tid] + woken(s.remove(k), count - 1, bitset),
        }
    }
}

/// The waiters that are left.
pub open spec fn left_over(s: Seq<FutexWaiter>, count: int, bitset: u32) -> Seq<FutexWaiter>
    decreases count,
{
    if count <= 0 {
        s
    } else {
        match first_match(s, bitset, 0) {
            None => s,
            Some(k) => left_over(s.remove(k), count - 1, bitset),
        }
    }
}

/// The lower of two numbers.
pub open spec fn at_most(a: int, b: int) -> int {
    if a < b {
        a
    } else {
        b
    }
}

/// The tasks of waiters.
pub open spec fn tids_of(s: Seq<FutexWaiter>) -> Seq<u64> {
    s.map_values(|waiter: FutexWaiter| waiter.tid)
}

/// The queues where one for a word was made, if there was none.
pub open spec fn with_queue(queues: Map<u64, Seq<FutexWaiter>>, key: u64) -> Map<
    u64,
    Seq<FutexWaiter>,
> {
    if queues.contains_key(key) {
        queues
    } else {
        queues.insert(key, Seq::empty())
    }
}

/// The queues after waiters were woken and others were moved.
pub open spec fn requeued(
    queues: Map<u64, Seq<FutexWaiter>>,
    src: u64,
    dst: u64,
    wake: int,
    move_count: int,
) -> Map<u64, Seq<FutexWaiter>> {
    let s = queues[src];
    let rest = s.skip(at_most(wake, s.len() as int));
    if move_count <= 0 || src == dst {
        queues.insert(src, rest)
    } else {
        let m = at_most(move_count, rest.len() as int);
        queues.insert(src, rest.skip(m)).insert(dst, queues[dst] + rest.take(m))
    }
}

impl View for FutexTable {
    type V = Map<u64, Seq<FutexWaiter>>;

    closed spec fn view(&self) -> Map<u64, Seq<FutexWaiter>> {
        self.queues@.map_values(|queue: Vec<FutexWaiter>| queue@)
    }
}

impl FutexTable {
    /// Where tasks wait.
    pub closed spec fn places(&self) -> Map<u64, u64> {
        self.places@
    }

    /// What stands in the queues and what is known of the tasks agree.
    pub open spec fn wf(&self) -> bool {
        &&& forall|key: u64, i: int|
            self@.contains_key(key) && 0 <= i < self@[key].len() ==> self.places().contains_key(
                (#[trigger] self@[key][i]).tid,
            ) && self.places()[self@[key][i].tid] == key
        &&& forall|tid: u64|
            #![trigger self.places()[tid]]
            #![trigger self.places().contains_key(tid)]
            self.places().contains_key(tid) ==> self@.contains_key(self.places()[tid]) && stands_in(
                self@[self.places()[tid]],
                tid,
            )
        &&& forall|key: u64| #[trigger] self@.contains_key(key) ==> each_once(self@[key])
    }

    /// Makes a table without queues.
    pub fn new() -> (table: Self)
        ensures
            table.wf(),
            table@ == Map::<u64, Seq<FutexWaiter>>::empty(),
            table.places() == Map::<u64, u64>::empty(),
    {
        let table = FutexTable { queues: BTreeMap::new(), places: BTreeMap::new() };
        assert(table@ =~= Map::<u64, Seq<FutexWaiter>>::empty());
        table
    }

    /// Takes the waiter at a place of a queue out.
    fn pop_at(&mut self, key: u64, i: usize) -> (waiter: FutexWaiter)
        requires
            old(self).wf(),
            old(self)@.contains_key(key),
            i < old(self)@[key].len(),
        ensures
            final(self).wf(),
            waiter == old(self)@[key][i as int],
            final(self)@ == old(self)@.insert(key, old(self)@[key].remove(i as int)),
            final(self).places() == old(self).places().remove(waiter.tid),
    {
        let ghost before = self@;
        let ghost places = self.places();
        assert(self@.contains_key(key) == self.queues@.contains_key(key));
        let mut queue = match self.queues.remove(&key) {
            Some(queue) => queue,
            None => Vec::new(),
        };
        let waiter = queue.remove(i);
        self.queues.insert(key, queue);
        self.places.remove(&waiter.tid);
        proof {
            let after = before.insert(key, before[key].remove(i as int));
            assert(self@ =~= after);
            assert(each_once(before[key]));
            assert forall|k: u64, j: int|
                self@.contains_key(k) && 0 <= j < self@[k].len() implies self.places().contains_key(
                (#[trigger] self@[k][j]).tid,
            ) && self.places()[self@[k][j].tid] == k by {
                if k == key {
                    let m = if j < i {
                        j
                    } else {
                        j + 1
                    };
                    assert(self@[k][j] == before[k][m]);
                    assert(before[k][i as int] == waiter);
                } else {
                    assert(self@[k][j] == before[k][j]);
                    assert(before[key][i as int] == waiter);
                }
            }
            assert forall|tid: u64|
                #![trigger self.places()[tid]]
                #![trigger self.places().contains_key(tid)]
                self.places().contains_key(tid) implies self@.contains_key(self.places()[tid])
                && stands_in(self@[self.places()[tid]], tid) by {
                assert(places.contains_key(tid));
                let k = places[tid];
                let j = choose|j: int| 0 <= j < before[k].len() && (#[trigger] before[k][j]).tid == tid;
                if k == key {
                    let m = if j < i {
                        j
                    } else {
                        j - 1
                    };
                    assert(j != i);
                    assert(self@[k][m].tid == tid);
                } else {
                    assert(self@[k][j].tid == tid);
                }
            }
            assert forall|k: u64| #[trigger] self@.contains_key(k) implies each_once(self@[k]) by {
                assert(before.contains_key(k));
            }
        }
        waiter
    }

    /// Puts a waiter at the end of a queue, which is made where there is none.
    fn push_back(&mut self, key: u64, waiter: FutexWaiter)
        requires
            old(self).wf(),
            !old(self).places().contains_key(waiter.tid),
        ensures
            final(self).wf(),
            final(self)@ == with_queue(old(self)@, key).insert(
                key,
                with_queue(old(self)@, key)[key].push(waiter),
            ),
            final(self).places() == old(self).places().insert(waiter.tid, key),
    {
        let ghost before = with_queue(self@, key);
        let ghost places = self.places();
        assert(self@.contains_key(key) == self.queues@.contains_key(key));
        let mut queue = match self.queues.remove(&key) {
            Some(queue) => queue,
            None => Vec::new(),
        };
        assert(queue@ =~= before[key]);
        queue.push(waiter);
        self.queues.insert(key, queue);
        self.places.insert(waiter.tid, key);
        proof {
            assert(self@ =~= before.insert(key, before[key].push(waiter)));
            let n = before[key].len() as int;
            assert(self@[key][n] == waiter);
            assert forall|k: u64, j: int|
                self@.contains_key(k) && 0 <= j < self@[k].len() implies self.places().contains_key(
                (#[trigger] self@[k][j]).tid,
            ) && self.places()[self@[k][j].tid] == k by {
                if k != key || j < n {
                    assert(self@[k][j] == before[k][j]);
                    assert(old(self)@.contains_key(k));
                    assert(old(self)@[k][j] == before[k][j]);
                }
            }
            assert forall|tid: u64|
                #![trigger self.places()[tid]]
                #![trigger self.places().contains_key(tid)]
                self.places().contains_key(tid) implies self@.contains_key(self.places()[tid])
                && stands_in(self@[self.places()[tid]], tid) by {
                if tid != waiter.tid {
                    assert(places.contains_key(tid));
                    let k = places[tid];
                    let j = choose|j: int|
                        0 <= j < old(self)@[k].len() && (#[trigger] old(self)@[k][j]).tid == tid;
                    assert(self@[k][j].tid == tid);
                }
            }
            assert forall|k: u64| #[trigger] self@.contains_key(k) implies each_once(self@[k]) by {
                if k == key {
                    assert forall|a: int, b: int| 0 <= a < b < self@[k].len() implies (
                    #[trigger] self@[k][a]).tid != (#[trigger] self@[k][b]).tid by {
                        assert(self@[k][a] == before[k][a]);
                        assert(old(self)@.contains_key(k));
                        assert(old(self)@[k][a] == before[k][a]);
                        if b < n {
                            assert(old(self)@[k][b] == before[k][b]);
                        }
                    }
                } else {
                    assert(old(self)@.contains_key(k));
                }
            }
        }
    }

    /// Forgets the queue of a word where nobody waits.
    pub fn retire_futex_wait_queue_by_key_if_unused(&mut self, key: u64)
        requires
            old(self).wf(),
        ensures
            final(self).wf(),
            final(self).places() == old(self).places(),
            final(self)@ == if old(self)@.contains_key(key) && old(self)@[key].len() == 0 {
                old(self)@.remove(key)
            } else {
                old(self)@
            },
    {
        assert(self@.contains_key(key) == self.queues@.contains_key(key));
        let empty: bool = match self.queues.get(&key) {
            Some(queue) => queue.len() == 0,
            None => false,
        };
        if empty {
            let ghost before = self@;
            self.queues.remove(&key);
            proof {
                assert(self@ =~= before.remove(key));
                assert forall|tid: u64|
                    #![trigger self.places()[tid]]
                    #![trigger self.places().contains_key(tid)]
                    self.places().contains_key(tid) implies self@.contains_key(self.places()[tid])
                    && stands_in(self@[self.places()[tid]], tid) by {
                    assert(old(self).places().contains_key(tid));
                    assert(stands_in(before[old(self).places()[tid]], tid));
                }
                assert forall|k: u64, j: int|
                    self@.contains_key(k) && 0 <= j < self@[k].len() implies self.places().contains_key(
                    (#[trigger] self@[k][j]).tid,
                ) && self.places()[self@[k][j].tid] == k by {
                    assert(self@[k][j] == before[k][j]);
                }
                assert forall|k: u64| #[trigger] self@.contains_key(k) implies each_once(
                    self@[k],
                ) by {
                    assert(before.contains_key(k));
                }
            }
        }
    }

    /// Lets a task wait for a word, where it still has to; tells whether it waits.
    /// Where it does not, an empty queue of the word is forgotten.
    pub fn block_current_on_futex_if(
        &mut self,
        key: u64,
        tid: u64,
        bitset: u32,
        should_block: bool,
    ) -> (blocked: bool)
        requires
            old(self).wf(),
            should_block ==> !old(self).places().contains_key(tid),
        ensures
            final(self).wf(),
            blocked == should_block,
            blocked ==> {
                &&& final(self)@ == with_queue(old(self)@, key).insert(
                    key,
                    with_queue(old(self)@, key)[key].push(FutexWaiter { tid, bitset }),
                )
                &&& final(self).places() == old(self).places().insert(tid, key)
            },
            !blocked ==> {
                &&& final(self).places() == old(self).places()
                &&& final(self)@ == if old(self)@.contains_key(key) && old(self)@[key].len() == 0 {
                    old(self)@.remove(key)
                } else {
                    old(self)@
                }
            },
    {
        if !should_block {
            self.retire_futex_wait_queue_by_key_if_unused(key);
            return false;
        }
        self.push_back(key, FutexWaiter { tid, bitset });
        true
    }

    /// Finds the first waiter of a queue that the bits wake.
    fn find_match(&self, key: u64, bitset: u32) -> (place: Option<usize>)
        requires
            self@.contains_key(key),
        ensures
            match place {
                None => first_match(self@[key], bitset, 0) is None,
                Some(i) => first_match(self@[key], bitset, 0) == Some(i as int) && i
                    < self@[key].len(),
            },
    {
        assert(self.queues@.contains_key(key));
        match self.queues.get(&key) {
            None => None,
            Some(queue) => {
                let mut i: usize = 0;
                while i < queue.len()
                    invariant
                        i <= queue@.len(),
                        queue@ == self@[key],
                        first_match(queue@, bitset, 0) == first_match(queue@, bitset, i as int),
                    decreases queue@.len() - i,
                {
                    if queue[i].bitset & bitset != 0 {
                        return Some(i);
                    }
                    i = i + 1;
                }
                None
            },
        }
    }

    /// Takes waiters that the bits wake out of the queue of a word, at most `count`.
    pub fn wake_futex_waiters(&mut self, key: u64, count: usize, bitset: u32) -> (tids: Vec<u64>)
        requires
            old(self).wf(),
        ensures
            final(self).wf(),
            if old(self)@.contains_key(key) {
                &&& tids@ == woken(old(self)@[key], count as int, bitset)
                &&& final(self)@ == old(self)@.insert(
                    key,
                    left_over(old(self)@[key], count as int, bitset),
                )
            } else {
                &&& tids@.len() == 0
                &&& final(self)@ == old(self)@
            },
            forall|tid: u64|
                #[trigger] final(self).places().contains_key(tid) == (old(self).places().contains_key(tid) && !tids@.contains(tid)),
    {
        let mut tids: Vec<u64> = Vec::new();
        assert(self@.contains_key(key) == self.queues@.contains_key(key));
        if !self.queues.contains_key(&key) {
            return tids;
        }
        let ghost s = self@[key];
        assert(self@ =~= old(self)@.insert(key, s));
        assert(tids@ + woken(s, count as int, bitset) =~= woken(s, count as int, bitset));
        while tids.len() < count
            invariant_except_break
                tids@ + woken(self@[key], count - tids@.len(), bitset) == woken(
                    s,
                    count as int,
                    bitset,
                ),
                left_over(self@[key], count - tids@.len(), bitset) == left_over(
                    s,
                    count as int,
                    bitset,
                ),
            invariant
                self.wf(),
                self@.contains_key(key),
                s == old(self)@[key],
                tids@.len() <= count,
                self@ == old(self)@.insert(key, self@[key]),
                forall|tid: u64|
                    #[trigger] self.places().contains_key(tid) == (old(self).places().contains_key(tid) && !tids@.contains(tid)),
            ensures
                tids@ == woken(s, count as int, bitset),
                self@[key] == left_over(s, count as int, bitset),
            decreases count - tids@.len(),
        {
            match self.find_match(key, bitset) {
                None => {
                    assert(tids@ + Seq::<u64>::empty() =~= tids@);
                    break;
                },
                Some(i) => {
                    let ghost q = self@[key];
                    let ghost before = tids@;
                    let ghost places = self.places();
                    let waiter = self.pop_at(key, i);
                    tids.push(waiter.tid);
                    proof {
                        assert(self@ =~= old(self)@.insert(key, self@[key]));
                        let rest = woken(q.remove(i as int), count - before.len() - 1, bitset);
                        assert(before + (seq![waiter.tid] + rest) =~= tids@ + rest);
                        assert forall|tid: u64|
                            #[trigger] self.places().contains_key(tid) == (old(self).places().contains_key(tid) && !tids@.contains(tid)) by {
                            assert(places.contains_key(tid) == (old(self).places().contains_key(
                                tid,
                            ) && !before.contains(tid)));
                            if tids@.contains(tid) && tid != waiter.tid {
                                let k = choose|k: int| 0 <= k < tids@.len() && tids@[k] == tid;
                                assert(before[k] == tid);
                            }
                            if before.contains(tid) {
                                let k = choose|k: int| 0 <= k < before.len() && before[k] == tid;
                                assert(tids@[k] == tid);
                            }
                            assert(tids@[before.len() as int] == waiter.tid);
                        }
                    }
                },
            }
        }
        tids
    }

    /// Takes a task out of the queue it waits in; returns the word.
    pub fn remove_futex_waiter(&mut self, tid: u64) -> (key: Option<u64>)
        requires
            old(self).wf(),
        ensures
            final(self).wf(),
            match key {
                None => !old(self).places().contains_key(tid) && *final(self) == *old(self),
                Some(k) => {
                    &&& old(self).places().contains_key(tid) && old(self).places()[tid] == k
                    &&& final(self).places() == old(self).places().remove(tid)
                    &&& exists|i: int|
                        0 <= i < old(self)@[k].len() && old(self)@[k][i].tid == tid && final(self)@
                            == old(self)@.insert(k, #[trigger] old(self)@[k].remove(i))
                },
            },
    {
        let found: Option<u64> = match self.places.get(&tid) {
            None => None,
            Some(key) => Some(*key),
        };
        let key: u64 = match found {
            None => {
                return None;
            },
            Some(key) => key,
        };
        assert(self.places().contains_key(tid));
        assert(self@.contains_key(key) && self.queues@.contains_key(key));
        let mut place: Option<usize> = None;
        match self.queues.get(&key) {
            None => {},
            Some(queue) => {
                let mut i: usize = 0;
                while i < queue.len()
                    invariant
                        i <= queue@.len(),
                        queue@ == self@[key],
                        stands_in(queue@, tid),
                        place is None ==> forall|j: int|
                            0 <= j < i ==> (#[trigger] queue@[j]).tid != tid,
                        place matches Some(p) ==> p < queue@.len() && queue@[p as int].tid == tid,
                    decreases queue@.len() - i,
                {
                    if queue[i].tid == tid {
                        place = Some(i);
                    }
                    i = i + 1;
                }
            },
        }
        match place {
            None => None,
            Some(i) => {
                let ghost q = self@[key];
                let _ = self.pop_at(key, i);
                assert(self@ == old(self)@.insert(key, q.remove(i as int)));
                Some(key)
            },
        }
    }

    /// Wakes waiters of a word and moves others to the queue of another word,
    /// from the front and in their order. Returns those to be woken, and how many were moved;
    /// nothing where the word has changed in between.
    pub fn requeue_futex_waiters(
        &mut self,
        src_key: u64,
        dst_key: u64,
        wake_count: usize,
        requeue_count: usize,
        should_requeue: bool,
    ) -> (result: Result<(Vec<u64>, usize), ()>)
        requires
            old(self).wf(),
        ensures
            final(self).wf(),
            result is Ok == should_requeue,
            ({
                let all = if requeue_count > 0 {
                    with_queue(old(self)@, dst_key)
                } else {
                    old(self)@
                };
                let s = old(self)@[src_key];
                let w = at_most(wake_count as int, s.len() as int);
                if !old(self)@.contains_key(src_key) {
                    &&& final(self)@ == old(self)@
                    &&& result matches Ok((tids, moved)) ==> tids@.len() == 0 && moved == 0
                } else if !should_requeue {
                    final(self)@ == all
                } else {
                    &&& result matches Ok((tids, moved)) && tids@ == tids_of(s.take(w)) && moved
                        == at_most(requeue_count as int, s.len() - w)
                    &&& final(self)@ == requeued(
                        all,
                        src_key,
                        dst_key,
                        wake_count as int,
                        requeue_count as int,
                    )
                }
            }),
    {
        assert(self@.contains_key(src_key) == self.queues@.contains_key(src_key));
        if !self.queues.contains_key(&src_key) {
            return if should_requeue {
                Ok((Vec::new(), 0))
            } else {
                Err(())
            };
        }
        if requeue_count > 0 {
            self.ensure_queue(dst_key);
        }
        let ghost all = self@;
        if !should_requeue {
            return Err(());
        }
        let ghost s = all[src_key];
        assert(s == old(self)@[src_key]);
        let mut tids: Vec<u64> = Vec::new();
        assert(s.skip(0) =~= s);
        assert(self@ =~= all.insert(src_key, s.skip(0)));
        assert(tids@ =~= tids_of(s.take(0)));
        while tids.len() < wake_count && self.queue_len(src_key) > 0
            invariant
                self.wf(),
                all.contains_key(src_key),
                s == all[src_key],
                tids@.len() <= wake_count,
                tids@.len() <= s.len(),
                tids@ == tids_of(s.take(tids@.len() as int)),
                self@ == all.insert(src_key, s.skip(tids@.len() as int)),
            decreases wake_count - tids@.len(),
        {
            let ghost k = tids@.len() as int;
            let waiter = self.pop_at(src_key, 0);
            tids.push(waiter.tid);
            assert(s.skip(k).remove(0) =~= s.skip(k + 1));
            assert(self@ =~= all.insert(src_key, s.skip(k + 1)));
            assert(tids@ =~= tids_of(s.take(k + 1)));
        }
        let ghost w = tids@.len() as int;
        let ghost rest = s.skip(w);
        let mut moved: usize = 0;
        if requeue_count > 0 {
            if src_key == dst_key {
                let n: usize = self.queue_len(src_key);
                moved = if requeue_count < n {
                    requeue_count
                } else {
                    n
                };
            } else {
                let ghost d = all[dst_key];
                assert(d + rest.take(0) =~= d);
                assert(rest.skip(0) =~= rest);
                assert(self@ =~= all.insert(src_key, rest.skip(0)).insert(
                    dst_key,
                    d + rest.take(0),
                ));
                while moved < requeue_count && self.queue_len(src_key) > 0
                    invariant
                        self.wf(),
                        src_key != dst_key,
                        all.contains_key(src_key),
                        all.contains_key(dst_key),
                        d == all[dst_key],
                        moved <= requeue_count,
                        moved <= rest.len(),
                        self@ == all.insert(src_key, rest.skip(moved as int)).insert(
                            dst_key,
                            d + rest.take(moved as int),
                        ),
                    decreases requeue_count - moved,
                {
                    let ghost m = moved as int;
                    let waiter = self.pop_at(src_key, 0);
                    self.push_back(dst_key, waiter);
                    moved = moved + 1;
                    assert(rest.skip(m).remove(0) =~= rest.skip(m + 1));
                    assert((d + rest.take(m)).push(waiter) =~= d + rest.take(m + 1));
                    assert(self@ =~= all.insert(src_key, rest.skip(m + 1)).insert(
                        dst_key,
                        d + rest.take(m + 1),
                    ));
                }
            }
        }
        Ok((tids, moved))
    }

    /// Returns the number of waiters of a word.
    pub fn queue_len(&self, key: u64) -> (n: usize)
        ensures
            n == if self@.contains_key(key) {
                self@[key].len()
            } else {
                0
            },
    {
        assert(self@.contains_key(key) == self.queues@.contains_key(key));
        match self.queues.get(&key) {
            None => 0,
            Some(queue) => queue.len(),
        }
    }

    /// Makes a queue for a word where there is none.
    fn ensure_queue(&mut self, key: u64)
        requires
            old(self).wf(),
        ensures
            final(self).wf(),
            final(self)@ == with_queue(old(self)@, key),
            final(self).places() == old(self).places(),
    {
        assert(self@.contains_key(key) == self.queues@.contains_key(key));
        if !self.queues.contains_key(&key) {
            let ghost before = self@;
            let queue: Vec<FutexWaiter> = Vec::new();
            self.queues.insert(key, queue);
            proof {
                assert(self@ =~= with_queue(before, key));
                assert forall|tid: u64|
                    #![trigger self.places()[tid]]
                    #![trigger self.places().contains_key(tid)]
                    self.places().contains_key(tid) implies self@.contains_key(self.places()[tid])
                    && stands_in(self@[self.places()[tid]], tid) by {
                    assert(old(self).places().contains_key(tid));
                    assert(stands_in(before[old(self).places()[tid]], tid));
                }
                assert forall|k: u64, j: int|
                    self@.contains_key(k) && 0 <= j < self@[k].len() implies self.places().contains_key(
                    (#[trigger] self@[k][j]).tid,
                ) && self.places()[self@[k][j].tid] == k by {
                    assert(self@[k][j] == before[k][j]);
                }
                assert forall|k: u64| #[trigger] self@.contains_key(k) implies each_once(
                    self@[k],
                ) by {
                    if k != key {
                        assert(before.contains_key(k));
                    }
                }
            }
        }
    }
}

/// Moving waiters loses none: those woken, those moved and those left are the ones that waited.
pub proof fn law_requeue_keeps_waiters(
    queues: Map<u64, Seq<FutexWaiter>>,
    src: u64,
    dst: u64,
    wake: int,
    move_count: int,
)
    requires
        queues.contains_key(src),
        queues.contains_key(dst),
        src != dst,
        wake >= 0,
        move_count > 0,
    ensures
        ({
            let s = queues[src];
            let after = requeued(queues, src, dst, wake, move_count);
            let w = at_most(wake, s.len() as int);
            s.take(w) + after[dst].skip(queues[dst].len() as int) + after[src] == s
        }),
{
    let s = queues[src];
    let w = at_most(wake, s.len() as int);
    let rest = s.skip(w);
    let m = at_most(move_count, rest.len() as int);
    let after = requeued(queues, src, dst, wake, move_count);
    assert(after[dst].skip(queues[dst].len() as int) =~= rest.take(m));
    assert(s.take(w) + after[dst].skip(queues[dst].len() as int) + after[src] =~= s);
}

/// A waiter is woken by a bit that it waits with, or stays.
pub proof fn law_woken_or_left(s: Seq<FutexWaiter>, count: int, bitset: u32)
    ensures
        woken(s, count, bitset).len() + left_over(s, count, bitset).len() == s.len(),
        woken(s, count, bitset).len() <= if count > 0 {
            count
        } else {
            0
        },
        woken(s, count, bitset).len() < count ==> first_match(
            left_over(s, count, bitset),
            bitset,
            0,
        ) is None,
    decreases count,
{
    if count > 0 {
        lemma_first_match(s, bitset, 0);
        match first_match(s, bitset, 0) {
            None => {},
            Some(k) => {
                law_woken_or_left(s.remove(k), count - 1, bitset);
            },
        }
    }
}

proof fn lemma_first_match(s: Seq<FutexWaiter>, bitset: u32, i: int)
    requires
        0 <= i,
    ensures
        first_match(s, bitset, i) matches Some(k) ==> i <= k < s.len(),
    decreases s.len() - i,
{
    if i < s.len() {
        lemma_first_match(s, bitset, i + 1);
    }
}

} // verus!
