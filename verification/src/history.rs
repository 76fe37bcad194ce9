//! Per-process history: a CPU/memory pair of rolling metrics for one
//! process, and a store mapping each member pid of a monitored group to
//! its pair.

use vstd::prelude::*;
use std::collections::HashMap;
use crate::circular_buffer::{CircularBuffer, max_of, sum_of};

verus! {

broadcast use vstd::std_specs::hash::group_hash_axioms;

/// CPU and memory rolling histories of one process, always created with
/// one shared capacity.
pub struct ProcessMetrics {
    pub cpu: CircularBuffer,
    pub memory: CircularBuffer,
}

impl ProcessMetrics {
    pub open spec fn wf(self) -> bool {
        &&& self.cpu.wf()
        &&& self.memory.wf()
        &&& self.cpu.cap() == self.memory.cap()
    }

    /// The shared capacity of the two series.
    pub open spec fn cap(self) -> nat {
        self.cpu.cap()
    }

    pub fn new(size: usize) -> (r: Self)
        requires
            size >= 1,
        ensures
            r.wf(),
            r.cap() == size,
            r.cpu.pushes() == Seq::<u64>::empty(),
            r.memory.pushes() == Seq::<u64>::empty(),
            r.cpu@ == Seq::<u64>::empty(),
            r.memory@ == Seq::<u64>::empty(),
    {
        ProcessMetrics { cpu: CircularBuffer::new(size), memory: CircularBuffer::new(size) }
    }

    pub fn update_cpu(&mut self, value: u64)
        requires
            old(self).wf(),
        ensures
            final(self).wf(),
            final(self).cap() == old(self).cap(),
            final(self).cpu.pushes() == old(self).cpu.pushes().push(value),
            final(self).cpu@ == crate::circular_buffer::slide(
                old(self).cpu@,
                value,
                old(self).cap(),
            ),
            final(self).memory == old(self).memory,
    {
        self.cpu.push(value);
    }

    pub fn update_memory(&mut self, value: u64)
        requires
            old(self).wf(),
        ensures
            final(self).wf(),
            final(self).cap() == old(self).cap(),
            final(self).memory.pushes() == old(self).memory.pushes().push(value),
            final(self).memory@ == crate::circular_buffer::slide(
                old(self).memory@,
                value,
                old(self).cap(),
            ),
            final(self).cpu == old(self).cpu,
    {
        self.memory.push(value);
    }

    /// The retained CPU window, oldest first.
    pub fn get_cpu_history(&self) -> (r: Vec<u64>)
        requires
            self.wf(),
        ensures
            r@ == self.cpu@,
    {
        self.cpu.as_vec()
    }

    /// The retained memory window, oldest first.
    pub fn get_memory_history(&self) -> (r: Vec<u64>)
        requires
            self.wf(),
        ensures
            r@ == self.memory@,
    {
        self.memory.as_vec()
    }
}

/// The mean of a window rounded toward zero, 0 when empty: the value
/// `CircularBuffer::average` reports.
pub open spec fn mean_of(s: Seq<u64>) -> int {
    if s.len() == 0 {
        0
    } else {
        sum_of(s) / s.len() as int
    }
}

/// Per-group history store: one `ProcessMetrics` pair per member pid,
/// created lazily on the first sample and pruned when a pid leaves the
/// resolved member set.
pub struct ProcessHistory {
    /// One metrics pair per member pid.
    pub histories: HashMap<u64, ProcessMetrics>,
    /// How many data points each series retains.
    pub history_len: usize,
}

impl View for ProcessHistory {
    type V = Map<u64, ProcessMetrics>;

    open spec fn view(&self) -> Map<u64, ProcessMetrics> {
        self.histories@
    }
}

impl ProcessHistory {
    pub open spec fn wf(self) -> bool {
        &&& self.history_len >= 1
        &&& forall|p: u64|
            self@.contains_key(p) ==> (#[trigger] self@[p]).wf() && self@[p].cap()
                == self.history_len
    }

    pub fn new(max_points: usize) -> (r: Self)
        requires
            max_points >= 1,
        ensures
            r.wf(),
            r@ == Map::<u64, ProcessMetrics>::empty(),
            r.history_len == max_points,
    {
        ProcessHistory { histories: HashMap::new(), history_len: max_points }
    }

    /// Pushes one CPU value for `pid`, creating its pair on first use;
    /// every other pid's history is untouched.
    pub fn update_cpu(&mut self, pid: u64, cpu_usage: u64)
        requires
            old(self).wf(),
        ensures
            final(self).wf(),
            final(self).history_len == old(self).history_len,
            final(self)@.dom() == old(self)@.dom().insert(pid),
            final(self)@[pid].wf(),
            final(self)@[pid].cap() == old(self).history_len,
            final(self)@[pid].cpu.pushes() == (if old(self)@.contains_key(pid) {
                old(self)@[pid].cpu.pushes()
            } else {
                Seq::<u64>::empty()
            }).push(cpu_usage),
            final(self)@[pid].memory == (if old(self)@.contains_key(pid) {
                old(self)@[pid].memory
            } else {
                final(self)@[pid].memory
            }),
            !old(self)@.contains_key(pid) ==> final(self)@[pid].memory.pushes() == Seq::<
                u64,
            >::empty(),
            forall|q: u64|
                q != pid && old(self)@.contains_key(q) ==> final(self)@.contains_key(q)
                    && final(self)@[q] == old(self)@[q],
    {
        let taken = self.histories.remove(&pid);
        proof {
            assert(self@ == old(self)@.remove(pid));
            if taken is Some {
                assert(old(self)@.contains_key(pid));
                assert(taken->Some_0 == old(self)@[pid]);
            }
        }
        let mut m = match taken {
            Some(m) => m,
            None => ProcessMetrics::new(self.history_len),
        };
        m.update_cpu(cpu_usage);
        self.histories.insert(pid, m);
        proof {
            assert(self@.dom() =~= old(self)@.dom().insert(pid));
        }
    }

    /// Pushes one memory value for `pid`, creating its pair on first
    /// use; every other pid's history is untouched.
    pub fn update_memory(&mut self, pid: u64, memory: u64)
        requires
            old(self).wf(),
        ensures
            final(self).wf(),
            final(self).history_len == old(self).history_len,
            final(self)@.dom() == old(self)@.dom().insert(pid),
            final(self)@[pid].wf(),
            final(self)@[pid].cap() == old(self).history_len,
            final(self)@[pid].memory.pushes() == (if old(self)@.contains_key(pid) {
                old(self)@[pid].memory.pushes()
            } else {
                Seq::<u64>::empty()
            }).push(memory),
            final(self)@[pid].cpu == (if old(self)@.contains_key(pid) {
                old(self)@[pid].cpu
            } else {
                final(self)@[pid].cpu
            }),
            !old(self)@.contains_key(pid) ==> final(self)@[pid].cpu.pushes() == Seq::<
                u64,
            >::empty(),
            forall|q: u64|
                q != pid && old(self)@.contains_key(q) ==> final(self)@.contains_key(q)
                    && final(self)@[q] == old(self)@[q],
    {
        let taken = self.histories.remove(&pid);
        proof {
            assert(self@ == old(self)@.remove(pid));
            if taken is Some {
                assert(old(self)@.contains_key(pid));
                assert(taken->Some_0 == old(self)@[pid]);
            }
        }
        let mut m = match taken {
            Some(m) => m,
            None => ProcessMetrics::new(self.history_len),
        };
        m.update_memory(memory);
        self.histories.insert(pid, m);
        proof {
            assert(self@.dom() =~= old(self)@.dom().insert(pid));
        }
    }

    /// The retained CPU window of `pid`, or `None` if it has none.
    pub fn get_cpu_history(&self, pid: &u64) -> (r: Option<Vec<u64>>)
        requires
            self.wf(),
        ensures
            r is Some <==> self@.contains_key(*pid),
            r is Some ==> r->Some_0@ == self@[*pid].cpu@,
    {
        match self.histories.get(pid) {
            Some(m) => {
                proof {
                    assert(self@.contains_key(*pid) && *m == self@[*pid]);
                }
                Some(m.get_cpu_history())
            },
            None => None,
        }
    }

    /// The retained memory window of `pid`, or `None` if it has none.
    pub fn get_memory_history(&self, pid: &u64) -> (r: Option<Vec<u64>>)
        requires
            self.wf(),
        ensures
            r is Some <==> self@.contains_key(*pid),
            r is Some ==> r->Some_0@ == self@[*pid].memory@,
    {
        match self.histories.get(pid) {
            Some(m) => {
                proof {
                    assert(self@.contains_key(*pid) && *m == self@[*pid]);
                }
                Some(m.get_memory_history())
            },
            None => None,
        }
    }

    /// Whether `pid` has a history entry.
    pub fn contains_pid(&self, pid: &u64) -> (r: bool)
        ensures
            r == self@.contains_key(*pid),
    {
        self.histories.contains_key(pid)
    }

    /// Peak CPU, peak memory, average CPU and average memory of `pid`'s
    /// retained windows; all zero when the pid has no history.
    pub fn get_data_history(&self, pid: &u64) -> (r: (u64, u64, u64, u64))
        requires
            self.wf(),
        ensures
            self@.contains_key(*pid) ==> {
                &&& r.0 == max_of(self@[*pid].cpu@)
                &&& r.1 == max_of(self@[*pid].memory@)
                &&& r.2 == mean_of(self@[*pid].cpu@)
                &&& r.3 == mean_of(self@[*pid].memory@)
            },
            !self@.contains_key(*pid) ==> r == (0u64, 0u64, 0u64, 0u64),
    {
        match self.histories.get(pid) {
            Some(m) => {
                proof {
                    assert(self@.contains_key(*pid) && *m == self@[*pid]);
                }
                (m.cpu.max_value(), m.memory.max_value(), m.cpu.average(), m.memory.average())
            },
            None => (0, 0, 0, 0),
        }
    }

    /// Keeps exactly the histories of pids in `active_pids`, dropping
    /// every other entry, so that exited processes do not accumulate.
    pub fn cleanup_histories(&mut self, active_pids: &Vec<u64>)
        requires
            old(self).wf(),
        ensures
            final(self).wf(),
            final(self).history_len == old(self).history_len,
            final(self)@ == old(self)@.restrict(active_pids@.to_set()),
            final(self)@.dom() == old(self)@.dom().intersect(active_pids@.to_set()),
            forall|p: u64|
                final(self)@.contains_key(p) ==> final(self)@[p] == old(self)@[p],
    {
        let ghost orig = self@;
        let ghost orig_len = self.history_len;
        let mut fresh: HashMap<u64, ProcessMetrics> = HashMap::new();
        let n = active_pids.len();
        let mut i: usize = 0;
        proof {
            assert(fresh@ =~= orig.restrict(active_pids@.take(0).to_set()));
            assert(self@ =~= orig.remove_keys(active_pids@.take(0).to_set()));
        }
        while i < n
            invariant
                0 <= i <= n,
                n == active_pids@.len(),
                self.history_len == orig_len,
                orig_len >= 1,
                forall|p: u64|
                    #[trigger] orig.contains_key(p) ==> orig[p].wf() && orig[p].cap() == orig_len,
                self@ == orig.remove_keys(active_pids@.take(i as int).to_set()),
                fresh@ == orig.restrict(active_pids@.take(i as int).to_set()),
            decreases n - i,
        {
            let pid = active_pids[i];
            let ghost pre_self = self@;
            let ghost pre_fresh = fresh@;
            let ghost pre_set = active_pids@.take(i as int).to_set();
            proof {
                assert(active_pids@.take(i + 1) =~= active_pids@.take(i as int).push(
                    active_pids@[i as int],
                ));
                assert forall|p: u64|
                    active_pids@.take(i + 1).to_set().contains(p) <==> pre_set.insert(
                        pid,
                    ).contains(p) by {
                    crate::circular_buffer::lemma_push_contains_iff(
                        active_pids@.take(i as int),
                        active_pids@[i as int],
                        p,
                    );
                }
                assert(active_pids@.take(i + 1).to_set() =~= pre_set.insert(pid));
            }
            let taken = self.histories.remove(&pid);
            proof {
                assert(self@ == pre_self.remove(pid));
                assert(self@ =~= orig.remove_keys(pre_set.insert(pid)));
                if taken is Some {
                    assert(pre_self.contains_key(pid));
                    assert(taken->Some_0 == pre_self[pid]);
                    assert(taken->Some_0 == orig[pid]);
                } else {
                    assert(!pre_self.contains_key(pid));
                }
            }
            match taken {
                Some(m) => {
                    fresh.insert(pid, m);
                },
                None => (),
            }
            proof {
                if taken is Some {
                    assert(fresh@ == pre_fresh.insert(pid, taken->Some_0));
                    assert(fresh@ =~= orig.restrict(pre_set.insert(pid)));
                } else {
                    assert(fresh@ == pre_fresh);
                    if orig.contains_key(pid) {
                        assert(pre_set.contains(pid));
                    }
                    assert(fresh@ =~= orig.restrict(pre_set.insert(pid)));
                }
            }
            i = i + 1;
        }
        self.histories = fresh;
        proof {
            assert(active_pids@.take(n as int) =~= active_pids@);
            assert(self@.dom() =~= orig.dom().intersect(active_pids@.to_set()));
        }
    }
}

} // verus!
