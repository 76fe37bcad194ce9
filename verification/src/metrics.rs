//! The refresh engine: per-group state and the per-tick algorithm that
//! resolves a group's members against a snapshot, updates per-member
//! histories, prunes the departed, and recomputes aggregate statistics.

use vstd::prelude::*;
use crate::process::{
    Sample, ProcessIdentifier, ProcessInfo, ProcessGeneralStats, pids_unique, has_pid, row_of,
    id_eq, identifier_eq, lemma_row_of_unique,
};
use crate::history::{ProcessHistory, ProcessMetrics, mean_of};
use crate::circular_buffer::{max_of, window_of};
use crate::monitor::{find_all_relation, seed_of, closure, vec_contains};

verus! {

/// Total CPU over every member's non-thread rows of the snapshot.
pub open spec fn agg_cpu(t: Seq<Sample>, members: Set<u64>) -> int
    decreases t.len(),
{
    if t.len() == 0 {
        0
    } else {
        agg_cpu(t.drop_last(), members) + if members.contains(t.last().pid)
            && !t.last().is_thread {
            t.last().cpu as int
        } else {
            0
        }
    }
}

/// Total memory over every member's non-thread rows of the snapshot.
pub open spec fn agg_memory(t: Seq<Sample>, members: Set<u64>) -> int
    decreases t.len(),
{
    if t.len() == 0 {
        0
    } else {
        agg_memory(t.drop_last(), members) + if members.contains(t.last().pid)
            && !t.last().is_thread {
            t.last().memory as int
        } else {
            0
        }
    }
}

/// How many member rows are full processes.
pub open spec fn count_procs(t: Seq<Sample>, members: Set<u64>) -> int
    decreases t.len(),
{
    if t.len() == 0 {
        0
    } else {
        count_procs(t.drop_last(), members) + if members.contains(t.last().pid)
            && !t.last().is_thread {
            1int
        } else {
            0
        }
    }
}

/// How many member rows are threads.
pub open spec fn count_threads(t: Seq<Sample>, members: Set<u64>) -> int
    decreases t.len(),
{
    if t.len() == 0 {
        0
    } else {
        count_threads(t.drop_last(), members) + if members.contains(t.last().pid)
            && t.last().is_thread {
            1int
        } else {
            0
        }
    }
}

/// CPU total over all rows: an upper bound for any member sum.
pub open spec fn total_cpu(t: Seq<Sample>) -> int
    decreases t.len(),
{
    if t.len() == 0 {
        0
    } else {
        total_cpu(t.drop_last()) + t.last().cpu as int
    }
}

/// Memory total over all rows: an upper bound for any member sum.
pub open spec fn total_memory(t: Seq<Sample>) -> int
    decreases t.len(),
{
    if t.len() == 0 {
        0
    } else {
        total_memory(t.drop_last()) + t.last().memory as int
    }
}

/// The snapshot's totals fit in the engine's 64-bit accumulators: the
/// one machine limit a caller must check before a tick.
pub open spec fn snapshot_bounded(t: Seq<Sample>) -> bool {
    total_cpu(t) <= u64::MAX && total_memory(t) <= u64::MAX
}

/// The member rows of the snapshot, in snapshot order.
pub open spec fn member_rows(t: Seq<Sample>, members: Set<u64>) -> Seq<Sample>
    decreases t.len(),
{
    if t.len() == 0 {
        Seq::empty()
    } else {
        member_rows(t.drop_last(), members) + if members.contains(t.last().pid) {
            seq![t.last()]
        } else {
            Seq::empty()
        }
    }
}

/// The record published for one member: its current sample joined with
/// the peak and average of its retained history.
pub open spec fn info_of(r: Sample, m: ProcessMetrics) -> ProcessInfo {
    ProcessInfo {
        name: r.name,
        pid: r.pid,
        parent_pid: r.parent_pid,
        is_thread: r.is_thread,
        current_cpu: r.cpu,
        avg_cpu: mean_of(m.cpu@) as u64,
        peak_cpu: max_of(m.cpu@),
        current_memory: if r.is_thread {
            0u64
        } else {
            r.memory
        },
        peak_memory: max_of(m.memory@),
        avg_memory: mean_of(m.memory@) as u64,
    }
}

pub proof fn lemma_agg_le_total(t: Seq<Sample>, members: Set<u64>)
    ensures
        0 <= agg_cpu(t, members) <= total_cpu(t),
        0 <= agg_memory(t, members) <= total_memory(t),
        0 <= count_procs(t, members) + count_threads(t, members) <= t.len(),
    decreases t.len(),
{
    if t.len() > 0 {
        lemma_agg_le_total(t.drop_last(), members);
    }
}

/// Prefix totals never exceed the whole snapshot's totals.
pub proof fn lemma_total_prefix(t: Seq<Sample>, j: int)
    requires
        0 <= j <= t.len(),
    ensures
        total_cpu(t.take(j)) <= total_cpu(t),
        total_memory(t.take(j)) <= total_memory(t),
    decreases t.len() - j,
{
    if j == t.len() {
        assert(t.take(j) =~= t);
    } else {
        lemma_total_prefix(t, j + 1);
        assert(t.take(j + 1).drop_last() =~= t.take(j));
        assert(t.take(j + 1).last() == t[j]);
    }
}

/// Every member row occurs in the snapshot and carries a member pid.
pub proof fn lemma_member_rows_props(t: Seq<Sample>, members: Set<u64>)
    ensures
        forall|k: int|
            0 <= k < member_rows(t, members).len() ==> members.contains(
                (#[trigger] member_rows(t, members)[k]).pid,
            ) && t.contains(member_rows(t, members)[k]),
    decreases t.len(),
{
    if t.len() > 0 {
        let pre = t.drop_last();
        lemma_member_rows_props(pre, members);
        assert forall|k: int|
            0 <= k < member_rows(t, members).len() implies members.contains(
            (#[trigger] member_rows(t, members)[k]).pid,
        ) && t.contains(member_rows(t, members)[k]) by {
            if k < member_rows(pre, members).len() {
                assert(member_rows(t, members)[k] == member_rows(pre, members)[k]);
                let i = choose|i: int| 0 <= i < pre.len() && pre[i] == member_rows(pre, members)[k];
                assert(t[i] == member_rows(t, members)[k]);
            } else {
                assert(member_rows(t, members)[k] == t.last());
                assert(t[t.len() - 1] == member_rows(t, members)[k]);
            }
        }
    }
}

/// Executable check of `snapshot_bounded`: whether the snapshot's CPU
/// and memory totals fit the engine's 64-bit accumulators.
pub fn snapshot_within_limits(snapshot: &Vec<Sample>) -> (r: bool)
    ensures
        r == snapshot_bounded(snapshot@),
{
    let ghost t = snapshot@;
    let n = snapshot.len();
    let mut cpu_total: u128 = 0;
    let mut memory_total: u128 = 0;
    let mut i: usize = 0;
    while i < n
        invariant
            0 <= i <= n,
            n == t.len(),
            t == snapshot@,
            cpu_total == total_cpu(t.take(i as int)),
            memory_total == total_memory(t.take(i as int)),
            cpu_total <= i * (u64::MAX as int),
            memory_total <= i * (u64::MAX as int),
        decreases n - i,
    {
        proof {
            assert(t.take(i + 1).drop_last() =~= t.take(i as int));
            assert(t.take(i + 1).last() == t[i as int]);
            assert(cpu_total + t[i as int].cpu <= (i + 1) * (u64::MAX as int))
                by (nonlinear_arith)
                requires
                    cpu_total <= i * (u64::MAX as int),
                    t[i as int].cpu <= u64::MAX as int,
                    0 <= i,
            ;
            assert(memory_total + t[i as int].memory <= (i + 1) * (u64::MAX as int))
                by (nonlinear_arith)
                requires
                    memory_total <= i * (u64::MAX as int),
                    t[i as int].memory <= u64::MAX as int,
                    0 <= i,
            ;
            assert((i + 1) * (u64::MAX as int) < u128::MAX as int) by (nonlinear_arith)
                requires
                    0 <= i,
                    i < t.len(),
                    t.len() <= usize::MAX as int,
            ;
        }
        cpu_total = cpu_total + snapshot[i].cpu as u128;
        memory_total = memory_total + snapshot[i].memory as u128;
        i = i + 1;
    }
    proof {
        assert(t.take(n as int) =~= t);
    }
    cpu_total <= u64::MAX as u128 && memory_total <= u64::MAX as u128
}


/// Law: aggregate sums and counts ignore pids that have no row in the
/// snapshot.
pub proof fn lemma_agg_remove_absent(t: Seq<Sample>, members: Set<u64>, q: u64)
    requires
        forall|i: int| 0 <= i < t.len() ==> (#[trigger] t[i]).pid != q,
    ensures
        agg_cpu(t, members) == agg_cpu(t, members.remove(q)),
        agg_memory(t, members) == agg_memory(t, members.remove(q)),
        count_procs(t, members) == count_procs(t, members.remove(q)),
        count_threads(t, members) == count_threads(t, members.remove(q)),
    decreases t.len(),
{
    if t.len() > 0 {
        assert forall|i: int| 0 <= i < t.drop_last().len() implies (#[trigger] t.drop_last()[i]).pid
            != q by {
            assert(t.drop_last()[i] == t[i]);
        }
        lemma_agg_remove_absent(t.drop_last(), members, q);
        assert(t[t.len() - 1].pid != q);
        assert(members.remove(q).contains(t.last().pid) == members.contains(t.last().pid));
    }
}

/// Law: a member flagged as a thread contributes nothing to the
/// aggregate CPU or memory sums and nothing to the process count, but
/// exactly one to the thread count, however large its own memory is.
pub proof fn lemma_thread_excluded(t: Seq<Sample>, members: Set<u64>, i: int)
    requires
        pids_unique(t),
        0 <= i < t.len(),
        t[i].is_thread,
        members.contains(t[i].pid),
    ensures
        agg_cpu(t, members) == agg_cpu(t, members.remove(t[i].pid)),
        agg_memory(t, members) == agg_memory(t, members.remove(t[i].pid)),
        count_procs(t, members) == count_procs(t, members.remove(t[i].pid)),
        count_threads(t, members) == count_threads(t, members.remove(t[i].pid)) + 1,
    decreases t.len(),
{
    let q = t[i].pid;
    if i == t.len() - 1 {
        assert forall|k: int| 0 <= k < t.drop_last().len() implies (#[trigger] t.drop_last()[k]).pid
            != q by {
            assert(t.drop_last()[k] == t[k]);
        }
        lemma_agg_remove_absent(t.drop_last(), members, q);
        assert(t.last().is_thread && members.contains(t.last().pid));
        assert(!members.remove(q).contains(t.last().pid));
    } else {
        assert(t.drop_last()[i] == t[i]);
        assert(pids_unique(t.drop_last())) by {
            assert forall|a: int, b: int|
                0 <= a < b < t.drop_last().len() implies (#[trigger] t.drop_last()[a]).pid != (
                #[trigger] t.drop_last()[b]).pid by {
                assert(t.drop_last()[a] == t[a] && t.drop_last()[b] == t[b]);
            }
        }
        lemma_thread_excluded(t.drop_last(), members, i);
        assert(t.last().pid != q);
        assert(members.remove(q).contains(t.last().pid) == members.contains(t.last().pid));
    }
}

/// Law: against an unchanged snapshot, consecutive ticks publish
/// identical current statistics, and the aggregate history grows by one
/// retained sample per tick until it reaches the configured capacity.
pub proof fn lemma_tick_idempotent(
    b1_store: Map<u64, ProcessMetrics>,
    b1_cpu: Seq<u64>,
    b1_mem: Seq<u64>,
    post1: ProcessData,
    b2_store: Map<u64, ProcessMetrics>,
    b2_cpu: Seq<u64>,
    b2_mem: Seq<u64>,
    post2: ProcessData,
    id: ProcessIdentifier,
    t: Seq<Sample>,
    cap: nat,
)
    requires
        cap >= 1,
        seed_of(t, id) != Set::<u64>::empty(),
        tick_from(b1_store, b1_cpu, b1_mem, post1, id, t, cap),
        tick_from(b2_store, b2_cpu, b2_mem, post2, id, t, cap),
    ensures
        post1.general.stats.current_cpu == post2.general.stats.current_cpu,
        post1.general.stats.current_memory == post2.general.stats.current_memory,
        post1.general.stats.process_count == post2.general.stats.process_count,
        post1.general.stats.thread_count == post2.general.stats.thread_count,
        window_of(post1.general.history.cpu.pushes(), cap).len() == (if window_of(b1_cpu, cap).len()
            < cap {
            window_of(b1_cpu, cap).len() + 1
        } else {
            cap
        }),
        window_of(b1_cpu, cap).len() < cap ==> window_of(post1.general.history.cpu.pushes(), cap).len()
            > window_of(b1_cpu, cap).len(),
{
    let members = closure(t, seed_of(t, id));
    crate::circular_buffer::lemma_window_push(b1_cpu, agg_cpu(t, members) as u64, cap);
}

/// Law: changing the configured capacity discards all history. On the
/// first tick after the change each member's series holds exactly this
/// tick's sample, and the aggregate series holds exactly this tick's
/// sums, never a truncated copy of older data.
pub proof fn lemma_capacity_change_discards(
    pre: ProcessData,
    post: ProcessData,
    id: ProcessIdentifier,
    t: Seq<Sample>,
    cap: nat,
)
    requires
        tick_rel(pre, post, id, t, cap),
        pre.history.history_len != cap,
        seed_of(t, id) != Set::<u64>::empty(),
    ensures
        forall|p: u64|
            closure(t, seed_of(t, id)).contains(p) ==> (#[trigger] post.history@[p]).cpu.pushes()
                == seq![row_of(t, p).cpu],
        forall|p: u64|
            closure(t, seed_of(t, id)).contains(p) ==> (#[trigger] post.history@[p]).memory.pushes()
                == seq![row_of(t, p).memory],
        post.general.history.cpu.pushes() == seq![
            agg_cpu(t, closure(t, seed_of(t, id))) as u64,
        ],
        post.general.history.memory.pushes() == seq![
            agg_memory(t, closure(t, seed_of(t, id))) as u64,
        ],
{
    let members = closure(t, seed_of(t, id));
    assert(base_store(pre, cap) == Map::<u64, ProcessMetrics>::empty());
    assert(base_agg_cpu(pre, cap) == Seq::<u64>::empty());
    assert forall|p: u64| members.contains(p) implies (#[trigger] post.history@[p]).cpu.pushes()
        == seq![row_of(t, p).cpu] by {
        assert(!base_store(pre, cap).restrict(members).contains_key(p));
        assert(Seq::<u64>::empty().push(row_of(t, p).cpu) =~= seq![row_of(t, p).cpu]);
    }
    assert forall|p: u64| members.contains(p) implies (#[trigger] post.history@[p]).memory.pushes()
        == seq![row_of(t, p).memory] by {
        assert(!base_store(pre, cap).restrict(members).contains_key(p));
        assert(Seq::<u64>::empty().push(row_of(t, p).memory) =~= seq![row_of(t, p).memory]);
    }
    assert(Seq::<u64>::empty().push(agg_cpu(t, members) as u64) =~= seq![
        agg_cpu(t, members) as u64,
    ]);
    assert(Seq::<u64>::empty().push(agg_memory(t, members) as u64) =~= seq![
        agg_memory(t, members) as u64,
    ]);
}

/// Law: after a tick, a pid with no row in the snapshot has no history
/// entry, however it got into the store before.
pub proof fn lemma_tick_prunes(
    b_store: Map<u64, ProcessMetrics>,
    b_cpu: Seq<u64>,
    b_mem: Seq<u64>,
    post: ProcessData,
    id: ProcessIdentifier,
    t: Seq<Sample>,
    cap: nat,
    p: u64,
)
    requires
        tick_from(b_store, b_cpu, b_mem, post, id, t, cap),
        !has_pid(t, p),
    ensures
        !post.history@.contains_key(p),
{
    let seeds = seed_of(t, id);
    if seeds == Set::<u64>::empty() {
        assert(post.history@ == Map::<u64, ProcessMetrics>::empty());
    } else {
        assert(post.history@.dom() == closure(t, seeds));
        if post.history@.contains_key(p) {
            assert(closure(t, seeds).contains(p));
            crate::monitor::lemma_reaches_has_pid(t, id, p);
            assert(false);
        }
    }
}

/// A group's aggregate: its statistics for the last tick and the
/// rolling pair that the per-tick aggregate sums are pushed into.
pub struct ProcessGeneral {
    pub stats: ProcessGeneralStats,
    pub history: ProcessMetrics,
}

impl ProcessGeneral {
    pub open spec fn wf(self) -> bool {
        self.history.wf()
    }
}

/// Everything the engine keeps for one monitored group.
pub struct ProcessData {
    /// Per-member CPU/memory histories.
    pub history: ProcessHistory,
    /// Aggregate statistics and aggregate history.
    pub general: ProcessGeneral,
    /// The member records of the last tick, in snapshot order.
    pub processes_stats: Vec<ProcessInfo>,
}

impl ProcessData {
    pub open spec fn wf(self) -> bool {
        &&& self.history.wf()
        &&& self.general.wf()
        &&& self.general.history.cap() == self.history.history_len
    }

    pub fn new(history_len: usize) -> (r: Self)
        requires
            history_len >= 1,
        ensures
            r.wf(),
            r.history.history_len == history_len,
            r.history@ == Map::<u64, ProcessMetrics>::empty(),
            r.general.history.cpu.pushes() == Seq::<u64>::empty(),
            r.general.history.memory.pushes() == Seq::<u64>::empty(),
            r.general.stats == ProcessGeneralStats::zeroed(),
            r.processes_stats@ == Seq::<ProcessInfo>::empty(),
    {
        ProcessData {
            history: ProcessHistory::new(history_len),
            general: ProcessGeneral {
                stats: ProcessGeneralStats::default(),
                history: ProcessMetrics::new(history_len),
            },
            processes_stats: Vec::new(),
        }
    }
}

/// The per-member store a tick starts from: the group's store, or an
/// empty one when the configured capacity changed, which discards all
/// history by design.
pub open spec fn base_store(pre: ProcessData, cap: nat) -> Map<u64, ProcessMetrics> {
    if pre.history.history_len == cap {
        pre.history@
    } else {
        Map::empty()
    }
}

/// The aggregate CPU push sequence a tick starts from.
pub open spec fn base_agg_cpu(pre: ProcessData, cap: nat) -> Seq<u64> {
    if pre.history.history_len == cap {
        pre.general.history.cpu.pushes()
    } else {
        Seq::empty()
    }
}

/// The aggregate memory push sequence a tick starts from.
pub open spec fn base_agg_memory(pre: ProcessData, cap: nat) -> Seq<u64> {
    if pre.history.history_len == cap {
        pre.general.history.memory.pushes()
    } else {
        Seq::empty()
    }
}

/// What one tick does to one group, given the snapshot `t` and the
/// configured capacity `cap`.
///
/// When nothing matches the identifier, the group keeps its aggregate
/// history but loses its live members: the store is pruned to empty and
/// the statistics are zeroed. Otherwise the member set is the relation
/// closure of the identifier; each member's history gains this tick's
/// sample, departed pids are pruned, the aggregate sums of the
/// non-thread members are pushed into the aggregate pair, and the
/// statistics are recomputed from them.
pub open spec fn tick_from(
    b_store: Map<u64, ProcessMetrics>,
    b_cpu: Seq<u64>,
    b_mem: Seq<u64>,
    post: ProcessData,
    id: ProcessIdentifier,
    t: Seq<Sample>,
    cap: nat,
) -> bool {
    let seeds = seed_of(t, id);
    let members = closure(t, seeds);
    let base = b_store.restrict(members);
    let agg_cpu_pushes = b_cpu.push(agg_cpu(t, members) as u64);
    let agg_mem_pushes = b_mem.push(agg_memory(t, members) as u64);
    let rows = member_rows(t, members);
    &&& post.history.history_len == cap
    &&& if seeds == Set::<u64>::empty() {
        &&& post.history@ == Map::<u64, ProcessMetrics>::empty()
        &&& post.general.history.cpu.pushes() == b_cpu
        &&& post.general.history.memory.pushes() == b_mem
        &&& post.general.stats == ProcessGeneralStats::zeroed()
        &&& post.processes_stats@ == Seq::<ProcessInfo>::empty()
    } else {
        &&& post.history@.dom() == members
        &&& forall|p: u64|
            members.contains(p) ==> (#[trigger] post.history@[p]).cpu.pushes() == (if base
                .contains_key(p) {
                base[p].cpu.pushes()
            } else {
                Seq::<u64>::empty()
            }).push(row_of(t, p).cpu)
        &&& forall|p: u64|
            members.contains(p) ==> (#[trigger] post.history@[p]).memory.pushes() == (if base
                .contains_key(p) {
                base[p].memory.pushes()
            } else {
                Seq::<u64>::empty()
            }).push(row_of(t, p).memory)
        &&& post.general.history.cpu.pushes() == agg_cpu_pushes
        &&& post.general.history.memory.pushes() == agg_mem_pushes
        &&& post.general.stats == (ProcessGeneralStats {
            current_cpu: agg_cpu(t, members) as u64,
            peak_cpu: max_of(window_of(agg_cpu_pushes, cap)),
            avg_cpu: mean_of(window_of(agg_cpu_pushes, cap)) as u64,
            current_memory: agg_memory(t, members) as u64,
            peak_memory: max_of(window_of(agg_mem_pushes, cap)),
            avg_memory: mean_of(window_of(agg_mem_pushes, cap)) as u64,
            process_count: count_procs(t, members) as usize,
            thread_count: count_threads(t, members) as usize,
        })
        &&& post.processes_stats@.len() == rows.len()
        &&& forall|k: int|
            0 <= k < rows.len() ==> post.processes_stats@[k] == info_of(
                #[trigger] rows[k],
                post.history@[rows[k].pid],
            )
    }
}

/// What one tick does to one group that existed before it, relative to
/// that group's prior state.
pub open spec fn tick_rel(
    pre: ProcessData,
    post: ProcessData,
    id: ProcessIdentifier,
    t: Seq<Sample>,
    cap: nat,
) -> bool {
    tick_from(
        base_store(pre, cap),
        base_agg_cpu(pre, cap),
        base_agg_memory(pre, cap),
        post,
        id,
        t,
        cap,
    )
}


impl ProcessData {
    /// Runs one refresh tick for this group: resolve members, prune the
    /// departed, push each member's sample, push the aggregate sums,
    /// and recompute the group statistics.
    #[verifier::rlimit(100)]
    pub fn tick(
        &mut self,
        identifier: &ProcessIdentifier,
        snapshot: &Vec<Sample>,
        history_len: usize,
    )
        requires
            old(self).wf(),
            history_len >= 1,
            pids_unique(snapshot@),
            snapshot_bounded(snapshot@),
        ensures
            final(self).wf(),
            tick_rel(*old(self), *final(self), *identifier, snapshot@, history_len as nat),
    {
        let ghost t = snapshot@;
        let ghost cap = history_len as nat;
        let ghost pre = *old(self);
        if self.history.history_len != history_len {
            self.history = ProcessHistory::new(history_len);
            self.general.history = ProcessMetrics::new(history_len);
        }
        proof {
            assert(self.history@ == base_store(pre, cap));
            assert(self.general.history.cpu.pushes() == base_agg_cpu(pre, cap));
            assert(self.general.history.memory.pushes() == base_agg_memory(pre, cap));
        }
        let ghost g0 = self.general;
        let resolved = find_all_relation(identifier, snapshot);
        match resolved {
            None => {
                let empty_pids: Vec<u64> = Vec::new();
                self.history.cleanup_histories(&empty_pids);
                proof {
                    assert(self.history@ =~= Map::<u64, ProcessMetrics>::empty()) by {
                        assert(self.history@.dom() =~= Set::<u64>::empty());
                    }
                }
                self.general.stats = ProcessGeneralStats::default();
                self.processes_stats = Vec::new();
            },
            Some(members) => {
                let ghost mset = closure(t, seed_of(t, *identifier));
                proof {
                    assert forall|p: u64| mset.contains(p) implies has_pid(t, p) by {
                        assert(members@.to_set().contains(p));
                        let k = choose|k: int| 0 <= k < members@.len() && members@[k] == p;
                        assert(has_pid(t, members@[k]));
                    }
                }
                self.history.cleanup_histories(&members);
                let ghost base = base_store(pre, cap).restrict(mset);
                proof {
                    assert(self.history@ == base_store(pre, cap).restrict(members@.to_set()));
                    assert(self.history@ == base);
                }
                let mut infos: Vec<ProcessInfo> = Vec::new();
                let mut cpu_sum: u64 = 0;
                let mut memory_sum: u64 = 0;
                let mut process_count: usize = 0;
                let mut thread_count: usize = 0;
                let n = snapshot.len();
                let mut j: usize = 0;
                proof {
                    assert(t.take(0) =~= Seq::<Sample>::empty());
                    assert(member_rows(t.take(0), mset) =~= Seq::<Sample>::empty());
                }
                while j < n
                    invariant
                        0 <= j <= n,
                        n == t.len(),
                        t == snapshot@,
                        pids_unique(t),
                        snapshot_bounded(t),
                        cap == history_len as nat,
                        history_len >= 1,
                        members@.to_set() == mset,
                        forall|p: u64| #[trigger] mset.contains(p) ==> has_pid(t, p),
                        forall|p: u64|
                            #[trigger] base.contains_key(p) ==> mset.contains(p) && base[p].wf()
                                && base[p].cap() == cap,
                        cpu_sum == agg_cpu(t.take(j as int), mset),
                        memory_sum == agg_memory(t.take(j as int), mset),
                        process_count == count_procs(t.take(j as int), mset),
                        thread_count == count_threads(t.take(j as int), mset),
                        process_count + thread_count <= j,
                        self.history.wf(),
                        self.history.history_len == history_len,
                        self.general == g0,
                        forall|p: u64|
                            self.history@.contains_key(p) <==> (base.contains_key(p) || (
                            mset.contains(p) && has_pid(t.take(j as int), p))),
                        forall|p: u64|
                            mset.contains(p) && #[trigger] has_pid(t.take(j as int), p) ==> {
                                &&& self.history@[p].cpu.pushes() == (if base.contains_key(p) {
                                    base[p].cpu.pushes()
                                } else {
                                    Seq::<u64>::empty()
                                }).push(row_of(t, p).cpu)
                                &&& self.history@[p].memory.pushes() == (if base.contains_key(p) {
                                    base[p].memory.pushes()
                                } else {
                                    Seq::<u64>::empty()
                                }).push(row_of(t, p).memory)
                            },
                        forall|p: u64|
                            #[trigger] base.contains_key(p) && !has_pid(t.take(j as int), p)
                                ==> self.history@.contains_key(p) && self.history@[p] == base[p],
                        infos@.len() == member_rows(t.take(j as int), mset).len(),
                        forall|k: int|
                            0 <= k < infos@.len() ==> #[trigger] infos@[k] == info_of(
                                member_rows(t.take(j as int), mset)[k],
                                self.history@[member_rows(t.take(j as int), mset)[k].pid],
                            ),
                    decreases n - j,
                {
                    let ghost tj = t.take(j as int);
                    let ghost tj1 = t.take(j + 1);
                    proof {
                        assert(tj1.drop_last() =~= tj);
                        assert(tj1.last() == t[j as int]);
                        crate::process::lemma_has_pid_extend(t, j as int);
                    }
                    let row_pid = snapshot[j].pid;
                    if vec_contains(&members, row_pid) {
                        proof {
                            assert(members@.contains(row_pid));
                            assert(members@.to_set().contains(row_pid));
                            assert(mset.contains(row_pid));
                            lemma_row_of_unique(t, j as int);
                            assert(!has_pid(tj, row_pid)) by {
                                if has_pid(tj, row_pid) {
                                    let ii = choose|ii: int|
                                        0 <= ii < tj.len() && (#[trigger] tj[ii]).pid == row_pid;
                                    assert(t[ii].pid == t[j as int].pid);
                                    assert(false);
                                }
                            }
                            lemma_agg_le_total(tj1, mset);
                            lemma_total_prefix(t, j + 1);
                            lemma_member_rows_props(tj, mset);
                        }
                        self.history.update_cpu(row_pid, snapshot[j].cpu);
                        self.history.update_memory(row_pid, snapshot[j].memory);
                        let peaks_avgs = self.history.get_data_history(&row_pid);
                        let info = ProcessInfo {
                            name: snapshot[j].name.clone(),
                            pid: row_pid,
                            parent_pid: snapshot[j].parent_pid,
                            is_thread: snapshot[j].is_thread,
                            current_cpu: snapshot[j].cpu,
                            avg_cpu: peaks_avgs.2,
                            peak_cpu: peaks_avgs.0,
                            current_memory: if snapshot[j].is_thread {
                                0
                            } else {
                                snapshot[j].memory
                            },
                            peak_memory: peaks_avgs.1,
                            avg_memory: peaks_avgs.3,
                        };
                        let ghost infos_before = infos@;
                        infos.push(info);
                        if snapshot[j].is_thread {
                            thread_count = thread_count + 1;
                        } else {
                            process_count = process_count + 1;
                            cpu_sum = cpu_sum + snapshot[j].cpu;
                            memory_sum = memory_sum + snapshot[j].memory;
                        }
                        proof {
                            assert forall|p: u64|
                                self.history@.contains_key(p) <==> (base.contains_key(p) || (
                                mset.contains(p) && has_pid(tj1, p))) by {
                                if p == row_pid {
                                    assert(self.history@.contains_key(p));
                                    assert(has_pid(tj1, p));
                                }
                            }
                            assert(member_rows(tj1, mset) =~= member_rows(tj, mset) + seq![
                                t[j as int],
                            ]);
                            assert(row_of(t, row_pid) == t[j as int]);
                            assert forall|k: int|
                                0 <= k < infos@.len() implies #[trigger] infos@[k] == info_of(
                                member_rows(tj1, mset)[k],
                                self.history@[member_rows(tj1, mset)[k].pid],
                            ) by {
                                if k < infos_before.len() {
                                    assert(member_rows(tj1, mset)[k] == member_rows(tj, mset)[k]);
                                    let r = member_rows(tj, mset)[k];
                                    assert(tj.contains(r));
                                    let ii = choose|ii: int| 0 <= ii < tj.len() && tj[ii] == r;
                                    assert(t[ii] == r);
                                    assert(r.pid != row_pid);
                                    assert(infos@[k] == infos_before[k]);
                                } else {
                                    assert(member_rows(tj1, mset)[k] == t[j as int]);
                                    assert(infos@[k] == info);
                                }
                            }
                        }
                    } else {
                        proof {
                            assert(!mset.contains(t[j as int].pid)) by {
                                if mset.contains(t[j as int].pid) {
                                    assert(members@.to_set().contains(t[j as int].pid));
                                }
                            }
                            assert(member_rows(tj1, mset) =~= member_rows(tj, mset));
                            assert forall|p: u64|
                                self.history@.contains_key(p) <==> (base.contains_key(p) || (
                                mset.contains(p) && has_pid(tj1, p))) by {
                                if mset.contains(p) && has_pid(tj1, p) {
                                    assert(p != t[j as int].pid);
                                    assert(has_pid(tj, p));
                                }
                            }
                        }
                    }
                    j = j + 1;
                }
                proof {
                    assert(t.take(n as int) =~= t);
                }
                self.general.history.update_cpu(cpu_sum);
                self.general.history.update_memory(memory_sum);
                let peak_cpu = self.general.history.cpu.max_value();
                let avg_cpu = self.general.history.cpu.average();
                let peak_memory = self.general.history.memory.max_value();
                let avg_memory = self.general.history.memory.average();
                self.general.stats = ProcessGeneralStats {
                    current_cpu: cpu_sum,
                    peak_cpu,
                    avg_cpu,
                    current_memory: memory_sum,
                    peak_memory,
                    avg_memory,
                    process_count,
                    thread_count,
                };
                self.processes_stats = infos;
                proof {
                    assert(self.history@.dom() =~= mset) by {
                        assert forall|p: u64| self.history@.dom().contains(p) implies mset.contains(
                            p,
                        ) by {
                            assert(self.history@.contains_key(p));
                        }
                        assert forall|p: u64| mset.contains(p) implies self.history@.dom().contains(
                            p,
                        ) by {
                            assert(has_pid(t, p));
                            assert(self.history@.contains_key(p));
                        }
                    }
                }
            },
        }
    }
}


/// Whether any identifier of the list equals `id`.
pub open spec fn contains_id(s: Seq<ProcessIdentifier>, id: ProcessIdentifier) -> bool {
    exists|k: int| 0 <= k < s.len() && id_eq(s[k], id)
}

/// Whether some group entry is keyed by `id`.
pub open spec fn has_entry(s: Seq<(ProcessIdentifier, ProcessData)>, id: ProcessIdentifier) -> bool {
    exists|j: int| 0 <= j < s.len() && id_eq(s[j].0, id)
}

/// The index of the first entry keyed by `id` (the list length if none).
pub open spec fn find_idx(s: Seq<(ProcessIdentifier, ProcessData)>, id: ProcessIdentifier) -> int
    decreases s.len(),
{
    if s.len() == 0 {
        0
    } else if id_eq(s[0].0, id) {
        0
    } else {
        1 + find_idx(s.drop_first(), id)
    }
}

/// The data of the first entry keyed by `id`; meaningful under
/// `has_entry`.
pub open spec fn data_of(s: Seq<(ProcessIdentifier, ProcessData)>, id: ProcessIdentifier) -> ProcessData
    recommends
        has_entry(s, id),
{
    s[find_idx(s, id)].1
}

///`find_idx` is the first match: in bounds when a match exists, keyed
/// by `id`, with no earlier match.
pub proof fn lemma_find_idx(s: Seq<(ProcessIdentifier, ProcessData)>, id: ProcessIdentifier)
    requires
        has_entry(s, id),
    ensures
        0 <= find_idx(s, id) < s.len(),
        id_eq(s[find_idx(s, id)].0, id),
        forall|k: int| 0 <= k < find_idx(s, id) ==> !id_eq(s[k].0, id),
    decreases s.len(),
{
    if s.len() > 0 && !id_eq(s[0].0, id) {
        let rest = s.drop_first();
        assert(has_entry(rest, id)) by {
            let j = choose|j: int| 0 <= j < s.len() && id_eq(s[j].0, id);
            assert(rest[j - 1] == s[j]);
        }
        lemma_find_idx(rest, id);
        assert forall|k: int| 0 <= k < find_idx(s, id) implies !id_eq(s[k].0, id) by {
            if k > 0 {
                assert(rest[k - 1] == s[k]);
            }
        }
    }
}

/// Where two entry lists agree on a key prefix covering a match, the
/// first match sits at the same index.
pub proof fn lemma_find_idx_same_keys(
    s1: Seq<(ProcessIdentifier, ProcessData)>,
    s2: Seq<(ProcessIdentifier, ProcessData)>,
    id: ProcessIdentifier,
)
    requires
        has_entry(s1, id),
        s1.len() <= s2.len(),
        forall|j: int| 0 <= j < s1.len() ==> (#[trigger] s2[j]).0 == s1[j].0,
    ensures
        has_entry(s2, id),
        find_idx(s2, id) == find_idx(s1, id),
    decreases s1.len(),
{
    lemma_find_idx(s1, id);
    let j = find_idx(s1, id);
    assert(id_eq(s2[j].0, id));
    assert(has_entry(s2, id));
    lemma_find_idx(s2, id);
    let j2 = find_idx(s2, id);
    if j2 < j {
        assert(id_eq(s2[j2].0, id));
        assert(!id_eq(s1[j2].0, id));
        assert(false);
    } else if j < j2 {
        assert(!id_eq(s2[j].0, id));
        assert(false);
    }
}

/// The index of the first identifier equal to `id` (the list length if
/// none).
pub open spec fn idx_id(s: Seq<ProcessIdentifier>, id: ProcessIdentifier) -> int
    decreases s.len(),
{
    if s.len() == 0 {
        0
    } else if id_eq(s[0], id) {
        0
    } else {
        1 + idx_id(s.drop_first(), id)
    }
}

/// `idx_id` is the first match when one exists.
pub proof fn lemma_idx_id(s: Seq<ProcessIdentifier>, id: ProcessIdentifier)
    requires
        contains_id(s, id),
    ensures
        0 <= idx_id(s, id) < s.len(),
        id_eq(s[idx_id(s, id)], id),
        forall|k: int| 0 <= k < idx_id(s, id) ==> !id_eq(s[k], id),
    decreases s.len(),
{
    if s.len() > 0 && !id_eq(s[0], id) {
        let rest = s.drop_first();
        assert(contains_id(rest, id)) by {
            let j = choose|j: int| 0 <= j < s.len() && id_eq(s[j], id);
            assert(rest[j - 1] == s[j]);
        }
        lemma_idx_id(rest, id);
        assert forall|k: int| 0 <= k < idx_id(s, id) implies !id_eq(s[k], id) by {
            if k > 0 {
                assert(rest[k - 1] == s[k]);
            }
        }
    }
}

/// Identifier equality is symmetric and transitive.
pub proof fn lemma_id_eq_props(a: ProcessIdentifier, b: ProcessIdentifier, c: ProcessIdentifier)
    ensures
        id_eq(a, b) == id_eq(b, a),
        id_eq(a, b) && id_eq(b, c) ==> id_eq(a, c),
{
}

/// Finds the first watched identifier equal to `id`.
fn find_id_pos(ids: &Vec<ProcessIdentifier>, id: &ProcessIdentifier) -> (r: Option<usize>)
    ensures
        r is Some <==> contains_id(ids@, *id),
        r is Some ==> r->Some_0 == idx_id(ids@, *id) && r->Some_0 < ids@.len(),
{
    let n = ids.len();
    let mut k: usize = 0;
    while k < n
        invariant
            0 <= k <= n,
            n == ids@.len(),
            forall|i: int| 0 <= i < k ==> !id_eq(#[trigger] ids@[i], *id),
        decreases n - k,
    {
        if identifier_eq(&ids[k], id) {
            proof {
                assert(contains_id(ids@, *id));
                lemma_idx_id(ids@, *id);
                let fi = idx_id(ids@, *id);
                if fi < k {
                    assert(!id_eq(ids@[fi], *id));
                } else if k < fi {
                    assert(!id_eq(ids@[k as int], *id));
                }
            }
            return Some(k);
        }
        k = k + 1;
    }
    proof {
        if contains_id(ids@, *id) {
            let i = choose|i: int| 0 <= i < ids@.len() && id_eq(ids@[i], *id);
            assert(!id_eq(ids@[i], *id));
        }
    }
    None
}

/// The member store a tick of `id` starts from, within a whole engine
/// state: the group's store, or empty if the group does not exist yet
/// or the configured capacity changed.
pub open spec fn pre_store_of(m: Metrics, id: ProcessIdentifier) -> Map<u64, ProcessMetrics> {
    if has_entry(m.processes@, id) {
        base_store(data_of(m.processes@, id), m.history_len as nat)
    } else {
        Map::empty()
    }
}

/// The aggregate CPU pushes a tick of `id` starts from.
pub open spec fn pre_cpu_of(m: Metrics, id: ProcessIdentifier) -> Seq<u64> {
    if has_entry(m.processes@, id) {
        base_agg_cpu(data_of(m.processes@, id), m.history_len as nat)
    } else {
        Seq::empty()
    }
}

/// The aggregate memory pushes a tick of `id` starts from.
pub open spec fn pre_mem_of(m: Metrics, id: ProcessIdentifier) -> Seq<u64> {
    if has_entry(m.processes@, id) {
        base_agg_memory(data_of(m.processes@, id), m.history_len as nat)
    } else {
        Seq::empty()
    }
}

/// Extending an identifier prefix by one adds exactly that identifier's
/// matches.
pub proof fn lemma_contains_id_extend(s: Seq<ProcessIdentifier>, j: int)
    requires
        0 <= j < s.len(),
    ensures
        forall|x: ProcessIdentifier|
            #[trigger] contains_id(s.take(j + 1), x) <==> (contains_id(s.take(j), x) || id_eq(
                s[j],
                x,
            )),
{
    assert forall|x: ProcessIdentifier|
        #[trigger] contains_id(s.take(j + 1), x) <==> (contains_id(s.take(j), x) || id_eq(
        s[j],
        x,
    )) by {
        if contains_id(s.take(j + 1), x) {
            let k = choose|k: int| 0 <= k < s.take(j + 1).len() && id_eq(#[trigger] s.take(j + 1)[k], x);
            if k < j {
                assert(id_eq(s.take(j)[k], x));
            } else {
                assert(s.take(j + 1)[k] == s[j]);
            }
        }
        if contains_id(s.take(j), x) {
            let k = choose|k: int| 0 <= k < s.take(j).len() && id_eq(#[trigger] s.take(j)[k], x);
            assert(id_eq(s.take(j + 1)[k], x));
        }
        if id_eq(s[j], x) {
            assert(id_eq(s.take(j + 1)[j], x));
        }
    }
}

/// Finds the first group entry keyed by `id`.
fn find_entry(entries: &Vec<(ProcessIdentifier, ProcessData)>, id: &ProcessIdentifier) -> (r:
    Option<usize>)
    ensures
        r is Some <==> has_entry(entries@, *id),
        r is Some ==> r->Some_0 == find_idx(entries@, *id) && r->Some_0 < entries@.len(),
{
    let n = entries.len();
    let mut j: usize = 0;
    while j < n
        invariant
            0 <= j <= n,
            n == entries@.len(),
            forall|k: int| 0 <= k < j ==> !id_eq((#[trigger] entries@[k]).0, *id),
        decreases n - j,
    {
        if identifier_eq(&entries[j].0, id) {
            proof {
                assert(has_entry(entries@, *id));
                lemma_find_idx(entries@, *id);
                let fi = find_idx(entries@, *id);
                if fi < j {
                    assert(!id_eq(entries@[fi].0, *id));
                } else if j < fi {
                    assert(!id_eq(entries@[j as int].0, *id));
                }
            }
            return Some(j);
        }
        j = j + 1;
    }
    proof {
        if has_entry(entries@, *id) {
            let k = choose|k: int| 0 <= k < entries@.len() && id_eq(entries@[k].0, *id);
            assert(!id_eq(entries@[k].0, *id));
        }
    }
    None
}

/// The engine: the watched identifiers, one group state per watched
/// identifier, and the active configuration. Configuration changes take
/// effect at the start of the next tick.
pub struct Metrics {
    /// The watched identifiers, in the order they were added.
    pub monitored_processes: Vec<ProcessIdentifier>,
    /// One group state per watched identifier, created lazily on the
    /// first tick that sees the identifier.
    pub processes: Vec<(ProcessIdentifier, ProcessData)>,
    /// Milliseconds between refresh ticks.
    pub update_interval_ms: u64,
    /// The configured capacity of every rolling history.
    pub history_len: usize,
}

impl Metrics {
    pub open spec fn wf(self) -> bool {
        &&& self.history_len >= 1
        &&& forall|i: int, j: int|
            0 <= i < j < self.monitored_processes@.len() ==> !id_eq(
                #[trigger] self.monitored_processes@[i],
                #[trigger] self.monitored_processes@[j],
            )
        &&& forall|i: int, j: int|
            0 <= i < j < self.processes@.len() ==> !id_eq(
                (#[trigger] self.processes@[i]).0,
                (#[trigger] self.processes@[j]).0,
            )
        &&& forall|j: int| 0 <= j < self.processes@.len() ==> (#[trigger] self.processes@[j]).1.wf()
    }

    pub fn new(history_len: usize, update_interval_ms: u64) -> (r: Self)
        requires
            history_len >= 1,
        ensures
            r.wf(),
            r.monitored_processes@ == Seq::<ProcessIdentifier>::empty(),
            r.processes@ == Seq::<(ProcessIdentifier, ProcessData)>::empty(),
            r.history_len == history_len,
            r.update_interval_ms == update_interval_ms,
    {
        Metrics {
            monitored_processes: Vec::new(),
            processes: Vec::new(),
            update_interval_ms,
            history_len,
        }
    }

    /// Starts watching an identifier; watching one twice is a no-op.
    pub fn add_selected_process(&mut self, identifier: ProcessIdentifier)
        requires
            old(self).wf(),
        ensures
            final(self).wf(),
            final(self).processes == old(self).processes,
            final(self).history_len == old(self).history_len,
            final(self).update_interval_ms == old(self).update_interval_ms,
            contains_id(old(self).monitored_processes@, identifier) ==> final(self)
                .monitored_processes == old(self).monitored_processes,
            !contains_id(old(self).monitored_processes@, identifier) ==> final(self).monitored_processes@ == old(self).monitored_processes@.push(identifier),
    {
        let n = self.monitored_processes.len();
        let mut k: usize = 0;
        while k < n
            invariant
                0 <= k <= n,
                n == self.monitored_processes@.len(),
                self == old(self),
                old(self).wf(),
                forall|i: int| 0 <= i < k ==> !id_eq(#[trigger] self.monitored_processes@[i], identifier),
            decreases n - k,
        {
            if identifier_eq(&self.monitored_processes[k], &identifier) {
                proof {
                    assert(contains_id(self.monitored_processes@, identifier));
                }
                return ;
            }
            k = k + 1;
        }
        proof {
            if contains_id(self.monitored_processes@, identifier) {
                let i = choose|i: int|
                    0 <= i < self.monitored_processes@.len() && id_eq(
                        self.monitored_processes@[i],
                        identifier,
                    );
                assert(!id_eq(self.monitored_processes@[i], identifier));
            }
        }
        self.monitored_processes.push(identifier);
    }

    /// Stops watching an identifier, dropping its group state; not
    /// watching it is a no-op.
    pub fn remove_selected_process(&mut self, identifier: &ProcessIdentifier)
        requires
            old(self).wf(),
        ensures
            final(self).wf(),
            final(self).history_len == old(self).history_len,
            final(self).update_interval_ms == old(self).update_interval_ms,
            !contains_id(old(self).monitored_processes@, *identifier) ==> final(self)
                .monitored_processes == old(self).monitored_processes,
            contains_id(old(self).monitored_processes@, *identifier) ==> final(self).monitored_processes@ == old(self).monitored_processes@.remove(
                idx_id(old(self).monitored_processes@, *identifier),
            ),
            !has_entry(old(self).processes@, *identifier) ==> final(self).processes == old(self).processes,
            has_entry(old(self).processes@, *identifier) ==> final(self).processes@ == old(self).processes@.remove(find_idx(old(self).processes@, *identifier)),
            !contains_id(final(self).monitored_processes@, *identifier),
            !has_entry(final(self).processes@, *identifier),
    {
        let ghost mon0 = self.monitored_processes@;
        let ghost procs0 = self.processes@;
        match find_id_pos(&self.monitored_processes, identifier) {
            Some(i) => {
                self.monitored_processes.remove(i);
                proof {
                    lemma_idx_id(mon0, *identifier);
                    assert forall|k: int|
                        0 <= k < self.monitored_processes@.len() implies !id_eq(
                        #[trigger] self.monitored_processes@[k],
                        *identifier,
                    ) by {
                        if k < i {
                            assert(self.monitored_processes@[k] == mon0[k]);
                        } else {
                            assert(self.monitored_processes@[k] == mon0[k + 1]);
                            if id_eq(mon0[k + 1], *identifier) {
                                assert(id_eq(mon0[i as int], *identifier));
                                assert(!id_eq(mon0[i as int], mon0[k + 1]));
                                lemma_id_eq_props(mon0[i as int], *identifier, mon0[k + 1]);
                                lemma_id_eq_props(mon0[k + 1], *identifier, mon0[i as int]);
                            }
                        }
                    }
                    assert forall|a: int, b: int|
                        0 <= a < b < self.monitored_processes@.len() implies !id_eq(
                        #[trigger] self.monitored_processes@[a],
                        #[trigger] self.monitored_processes@[b],
                    ) by {
                        let oa: int = if a < i { a } else { a + 1 };
                        let ob: int = if b < i { b } else { b + 1 };
                        assert(self.monitored_processes@[a] == mon0[oa]);
                        assert(self.monitored_processes@[b] == mon0[ob]);
                    }
                }
            },
            None => (),
        }
        match find_entry(&self.processes, identifier) {
            Some(j) => {
                self.processes.remove(j);
                proof {
                    lemma_find_idx(procs0, *identifier);
                    assert forall|k: int|
                        0 <= k < self.processes@.len() implies !id_eq(
                        (#[trigger] self.processes@[k]).0,
                        *identifier,
                    ) by {
                        if k < j {
                            assert(self.processes@[k] == procs0[k]);
                        } else {
                            assert(self.processes@[k] == procs0[k + 1]);
                            if id_eq(procs0[k + 1].0, *identifier) {
                                assert(id_eq(procs0[j as int].0, *identifier));
                                assert(!id_eq(procs0[j as int].0, procs0[k + 1].0));
                                lemma_id_eq_props(procs0[j as int].0, *identifier, procs0[k + 1].0);
                                lemma_id_eq_props(procs0[k + 1].0, *identifier, procs0[j as int].0);
                            }
                        }
                    }
                    assert forall|a: int, b: int|
                        0 <= a < b < self.processes@.len() implies !id_eq(
                        (#[trigger] self.processes@[a]).0,
                        (#[trigger] self.processes@[b]).0,
                    ) by {
                        let oa: int = if a < j { a } else { a + 1 };
                        let ob: int = if b < j { b } else { b + 1 };
                        assert(self.processes@[a] == procs0[oa]);
                        assert(self.processes@[b] == procs0[ob]);
                    }
                    assert forall|k: int|
                        0 <= k < self.processes@.len() implies (#[trigger] self.processes@[k]).1.wf() by {
                        let ok: int = if k < j { k } else { k + 1 };
                        assert(self.processes@[k] == procs0[ok]);
                    }
                }
            },
            None => {
                proof {
                    if has_entry(self.processes@, *identifier) {
                        let k = choose|k: int|
                            0 <= k < self.processes@.len() && id_eq(
                                self.processes@[k].0,
                                *identifier,
                            );
                    }
                }
            },
        }
        proof {
            if contains_id(self.monitored_processes@, *identifier) {
                let k = choose|k: int|
                    0 <= k < self.monitored_processes@.len() && id_eq(
                        self.monitored_processes@[k],
                        *identifier,
                    );
            }
        }
    }

    /// Clears a watched group's collected data (history, aggregates and
    /// member list), keeping the identifier watched; an unknown
    /// identifier is a no-op.
    pub fn clear_process_data(&mut self, identifier: &ProcessIdentifier)
        requires
            old(self).wf(),
        ensures
            final(self).wf(),
            final(self).monitored_processes == old(self).monitored_processes,
            final(self).history_len == old(self).history_len,
            final(self).update_interval_ms == old(self).update_interval_ms,
            !has_entry(old(self).processes@, *identifier) ==> final(self).processes == old(self).processes,
            has_entry(old(self).processes@, *identifier) ==> {
                let j = find_idx(old(self).processes@, *identifier);
                &&& final(self).processes@.len() == old(self).processes@.len()
                &&& forall|k: int|
                    0 <= k < old(self).processes@.len() && k != j ==> final(self).processes@[k]
                        == old(self).processes@[k]
                &&& final(self).processes@[j].0 == old(self).processes@[j].0
                &&& final(self).processes@[j].1.history@ == Map::<u64, ProcessMetrics>::empty()
                &&& final(self).processes@[j].1.history.history_len == old(self).history_len
                &&& final(self).processes@[j].1.general.history.cpu.pushes() == Seq::<u64>::empty()
                &&& final(self).processes@[j].1.general.history.memory.pushes() == Seq::<u64>::empty()
                &&& final(self).processes@[j].1.general.stats == ProcessGeneralStats::zeroed()
                &&& final(self).processes@[j].1.processes_stats@ == Seq::<ProcessInfo>::empty()
            },
    {
        let ghost procs0 = self.processes@;
        match find_entry(&self.processes, identifier) {
            Some(j) => {
                let entry = self.processes.remove(j);
                let data = ProcessData::new(self.history_len);
                self.processes.insert(j, (entry.0, data));
                proof {
                    assert(self.processes@ =~= procs0.update(
                        j as int,
                        self.processes@[j as int],
                    ));
                    assert(self.processes@[j as int].0 == procs0[j as int].0);
                }
            },
            None => (),
        }
    }

    /// The watched identifiers, in the order they were added.
    pub fn get_monitored_processes(&self) -> (r: &Vec<ProcessIdentifier>)
        ensures
            r@ == self.monitored_processes@,
    {
        &self.monitored_processes
    }

    /// The last computed result for a watched identifier, if a tick has
    /// created its group yet.
    pub fn get_process_data(&self, identifier: &ProcessIdentifier) -> (r: Option<&ProcessData>)
        ensures
            r is Some <==> has_entry(self.processes@, *identifier),
            r is Some ==> *r->Some_0 == data_of(self.processes@, *identifier),
    {
        match find_entry(&self.processes, identifier) {
            Some(j) => Some(&self.processes[j].1),
            None => None,
        }
    }

    /// Changes the refresh interval; it takes effect on the next tick.
    pub fn set_update_interval(&mut self, update_interval_ms: u64)
        requires
            old(self).wf(),
        ensures
            final(self).wf(),
            final(self).update_interval_ms == update_interval_ms,
            final(self).monitored_processes == old(self).monitored_processes,
            final(self).processes == old(self).processes,
            final(self).history_len == old(self).history_len,
    {
        self.update_interval_ms = update_interval_ms;
    }



    /// Runs one refresh tick across all watched groups, in the order
    /// they were added: resolve, prune, update histories, recompute
    /// statistics for each. Groups are created lazily for identifiers
    /// watched since the last tick.
    #[verifier::rlimit(100)]
    pub fn update_metrics(&mut self, snapshot: &Vec<Sample>)
        requires
            old(self).wf(),
            pids_unique(snapshot@),
            snapshot_bounded(snapshot@),
        ensures
            final(self).wf(),
            final(self).monitored_processes == old(self).monitored_processes,
            final(self).history_len == old(self).history_len,
            final(self).update_interval_ms == old(self).update_interval_ms,
            forall|k: int|
                0 <= k < old(self).monitored_processes@.len() ==> {
                    let id = #[trigger] old(self).monitored_processes@[k];
                    &&& has_entry(final(self).processes@, id)
                    &&& tick_from(
                        pre_store_of(*old(self), id),
                        pre_cpu_of(*old(self), id),
                        pre_mem_of(*old(self), id),
                        data_of(final(self).processes@, id),
                        id,
                        snapshot@,
                        old(self).history_len as nat,
                    )
                },
            final(self).processes@.len() >= old(self).processes@.len(),
            forall|j: int|
                0 <= j < old(self).processes@.len() ==> (#[trigger] final(self).processes@[j]).0
                    == old(self).processes@[j].0,
            forall|j: int|
                old(self).processes@.len() <= j < final(self).processes@.len() ==> contains_id(
                    old(self).monitored_processes@,
                    (#[trigger] final(self).processes@[j]).0,
                ),
    {
        let ghost t = snapshot@;
        let ghost m0 = *old(self);
        let ghost cap = self.history_len as nat;
        let n = self.monitored_processes.len();
        let mut idx: usize = 0;
        proof {
            assert(m0.monitored_processes@.take(0) =~= Seq::<ProcessIdentifier>::empty());
        }
        while idx < n
            invariant
                0 <= idx <= n,
                n == m0.monitored_processes@.len(),
                t == snapshot@,
                pids_unique(t),
                snapshot_bounded(t),
                m0.wf(),
                self.wf(),
                cap == m0.history_len as nat,
                self.monitored_processes == m0.monitored_processes,
                self.history_len == m0.history_len,
                self.update_interval_ms == m0.update_interval_ms,
                self.processes@.len() >= m0.processes@.len(),
                forall|j: int|
                    0 <= j < m0.processes@.len() ==> (#[trigger] self.processes@[j]).0
                        == m0.processes@[j].0,
                forall|j: int|
                    m0.processes@.len() <= j < self.processes@.len() ==> contains_id(
                        m0.monitored_processes@.take(idx as int),
                        (#[trigger] self.processes@[j]).0,
                    ),
                forall|j: int|
                    0 <= j < m0.processes@.len() && !contains_id(
                        m0.monitored_processes@.take(idx as int),
                        m0.processes@[j].0,
                    ) ==> (#[trigger] self.processes@[j]).1 == m0.processes@[j].1,
                forall|k: int|
                    0 <= k < idx ==> {
                        let id = #[trigger] m0.monitored_processes@[k];
                        &&& has_entry(self.processes@, id)
                        &&& tick_from(
                            pre_store_of(m0, id),
                            pre_cpu_of(m0, id),
                            pre_mem_of(m0, id),
                            data_of(self.processes@, id),
                            id,
                            t,
                            cap,
                        )
                    },
            decreases n - idx,
        {
            let id = self.monitored_processes[idx].clone();
            let ghost procs_before = self.processes@;
            proof {
                assert(id == m0.monitored_processes@[idx as int]);
                lemma_contains_id_extend(m0.monitored_processes@, idx as int);
                assert(!contains_id(m0.monitored_processes@.take(idx as int), id)) by {
                    if contains_id(m0.monitored_processes@.take(idx as int), id) {
                        let k = choose|k: int|
                            0 <= k < idx && id_eq(
                                #[trigger] m0.monitored_processes@.take(idx as int)[k],
                                id,
                            );
                        assert(id_eq(m0.monitored_processes@[k], m0.monitored_processes@[idx as int]));
                        assert(false);
                    }
                }
            }
            let found = find_entry(&self.processes, &id);
            match found {
                Some(j) => {
                    proof {
                        lemma_find_idx(procs_before, id);
                        if j >= m0.processes@.len() {
                            assert(contains_id(
                                m0.monitored_processes@.take(idx as int),
                                procs_before[j as int].0,
                            ));
                            let k = choose|k: int|
                                0 <= k < idx && id_eq(
                                    #[trigger] m0.monitored_processes@.take(idx as int)[k],
                                    procs_before[j as int].0,
                                );
                            lemma_id_eq_props(
                                m0.monitored_processes@[k],
                                procs_before[j as int].0,
                                id,
                            );
                            assert(id_eq(m0.monitored_processes@[k], id));
                            assert(false);
                        }
                        assert(j < m0.processes@.len());
                        assert(id_eq(m0.processes@[j as int].0, id));
                        assert(has_entry(m0.processes@, id));
                        lemma_find_idx_same_keys(m0.processes@, procs_before, id);
                        assert(find_idx(m0.processes@, id) == j);
                        assert(procs_before[j as int].1 == m0.processes@[j as int].1);
                        assert(data_of(m0.processes@, id) == procs_before[j as int].1);
                    }
                    let entry = self.processes.remove(j);
                    let (key, mut data) = entry;
                    data.tick(&id, snapshot, self.history_len);
                    self.processes.insert(j, (key, data));
                    proof {
                        assert(self.processes@ =~= procs_before.update(
                            j as int,
                            self.processes@[j as int],
                        ));
                        assert(self.processes@[j as int].0 == procs_before[j as int].0);
                        assert(tick_from(
                            pre_store_of(m0, id),
                            pre_cpu_of(m0, id),
                            pre_mem_of(m0, id),
                            self.processes@[j as int].1,
                            id,
                            t,
                            cap,
                        ));
                        assert(has_entry(self.processes@, id)) by {
                            assert(id_eq(self.processes@[j as int].0, id));
                        }
                        lemma_find_idx_same_keys(procs_before, self.processes@, id);
                        assert(data_of(self.processes@, id) == self.processes@[j as int].1);
                        // the key at j names `id`, so every other entry keeps
                        // both its key and its data
                        assert forall|k: int| 0 <= k < idx implies {
                            let idk = #[trigger] m0.monitored_processes@[k];
                            &&& has_entry(self.processes@, idk)
                            &&& data_of(self.processes@, idk) == data_of(procs_before, idk)
                        } by {
                            let idk = m0.monitored_processes@[k];
                            lemma_find_idx(procs_before, idk);
                            lemma_find_idx_same_keys(procs_before, self.processes@, idk);
                            let fk = find_idx(procs_before, idk);
                            if fk == j {
                                lemma_id_eq_props(procs_before[j as int].0, id, idk);
                                lemma_id_eq_props(idk, procs_before[j as int].0, id);
                                assert(id_eq(idk, id));
                                assert(id_eq(m0.monitored_processes@[k], m0.monitored_processes@[idx as int]));
                                assert(false);
                            }
                            assert(self.processes@[fk] == procs_before[fk]);
                        }
                        // untouched entries stay untouched
                        assert forall|jj: int|
                            0 <= jj < m0.processes@.len() && !contains_id(
                                m0.monitored_processes@.take(idx + 1),
                                m0.processes@[jj].0,
                            ) implies (#[trigger] self.processes@[jj]).1 == m0.processes@[jj].1 by {
                            if jj == j {
                                lemma_id_eq_props(id, m0.processes@[j as int].0, id);
                                assert(id_eq(m0.monitored_processes@[idx as int], m0.processes@[j as int].0));
                            } else {
                                assert(self.processes@[jj] == procs_before[jj]);
                            }
                        }
                        // well-formedness of the whole entry list
                        assert forall|jj: int|
                            0 <= jj < self.processes@.len() implies (#[trigger] self.processes@[jj]).1.wf() by {
                            if jj != j {
                                assert(self.processes@[jj] == procs_before[jj]);
                            }
                        }
                        assert forall|a: int, b: int|
                            0 <= a < b < self.processes@.len() implies !id_eq(
                            (#[trigger] self.processes@[a]).0,
                            (#[trigger] self.processes@[b]).0,
                        ) by {
                            assert(self.processes@[a].0 == procs_before[a].0);
                            assert(self.processes@[b].0 == procs_before[b].0);
                        }
                    }
                },
                None => {
                    proof {
                        if has_entry(m0.processes@, id) {
                            lemma_find_idx(m0.processes@, id);
                            let j0 = find_idx(m0.processes@, id);
                            assert(id_eq(procs_before[j0].0, id));
                            assert(has_entry(procs_before, id));
                            assert(false);
                        }
                    }
                    let mut data = ProcessData::new(self.history_len);
                    data.tick(&id, snapshot, self.history_len);
                    self.processes.push((id, data));
                    proof {
                        let plen = procs_before.len() as int;
                        assert(self.processes@.len() == plen + 1);
                        assert(id_eq(self.processes@[plen].0, id));
                        assert(has_entry(self.processes@, id));
                        assert forall|k: int| 0 <= k < plen implies self.processes@[k]
                            == procs_before[k] by {}
                        assert forall|k: int| 0 <= k < plen implies !id_eq(
                            (#[trigger] self.processes@[k]).0,
                            id,
                        ) by {
                            if id_eq(procs_before[k].0, id) {
                                assert(has_entry(procs_before, id));
                            }
                        }
                        lemma_find_idx(self.processes@, id);
                        if find_idx(self.processes@, id) < plen {
                            assert(!id_eq(self.processes@[find_idx(self.processes@, id)].0, id));
                            assert(false);
                        }
                        assert(data_of(self.processes@, id) == self.processes@[plen].1);
                        assert(tick_from(
                            pre_store_of(m0, id),
                            pre_cpu_of(m0, id),
                            pre_mem_of(m0, id),
                            self.processes@[plen].1,
                            id,
                            t,
                            cap,
                        ));
                        // earlier ticked ids keep their entries and data
                        assert forall|k: int| 0 <= k < idx implies {
                            let idk = #[trigger] m0.monitored_processes@[k];
                            &&& has_entry(self.processes@, idk)
                            &&& data_of(self.processes@, idk) == data_of(procs_before, idk)
                        } by {
                            let idk = m0.monitored_processes@[k];
                            lemma_find_idx(procs_before, idk);
                            lemma_find_idx_same_keys(procs_before, self.processes@, idk);
                            let fk = find_idx(procs_before, idk);
                            assert(self.processes@[fk] == procs_before[fk]);
                        }
                        // well-formedness of the whole entry list
                        assert forall|jj: int|
                            0 <= jj < self.processes@.len() implies (#[trigger] self.processes@[jj]).1.wf() by {
                            if jj < plen {
                                assert(self.processes@[jj] == procs_before[jj]);
                            }
                        }
                        assert forall|a: int, b: int|
                            0 <= a < b < self.processes@.len() implies !id_eq(
                            (#[trigger] self.processes@[a]).0,
                            (#[trigger] self.processes@[b]).0,
                        ) by {
                            if b < plen {
                                assert(self.processes@[a] == procs_before[a]);
                                assert(self.processes@[b] == procs_before[b]);
                            } else {
                                assert(self.processes@[a] == procs_before[a]);
                                if id_eq(procs_before[a].0, self.processes@[plen].0) {
                                    lemma_id_eq_props(procs_before[a].0, self.processes@[plen].0, id);
                                    assert(id_eq(procs_before[a].0, id));
                                    assert(has_entry(procs_before, id));
                                    assert(false);
                                }
                            }
                        }
                    }
                },
            }
            idx = idx + 1;
        }
        proof {
            assert(m0.monitored_processes@.take(n as int) =~= m0.monitored_processes@);
        }
    }
}

} // verus!
