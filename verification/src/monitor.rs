//! Relation resolution over a process snapshot, and the refresh-interval
//! gate.
//!
//! Given a target identifier and a snapshot table, `find_all_relation`
//! returns the target's monitoring group: every pid matching the
//! identifier plus all transitive descendants, found by breadth-first
//! expansion with a visited set, so that even a snapshot with a
//! parent/child cycle cannot loop it.

use vstd::prelude::*;
use crate::process::{
    Sample, ProcessIdentifier, pids_unique, has_pid,
};
use crate::circular_buffer::lemma_push_contains_iff;

verus! {

/// The row of `c` lists `p` as its parent.
pub open spec fn is_child(t: Seq<Sample>, p: u64, c: u64) -> bool {
    exists|i: int| 0 <= i < t.len() && t[i].pid == c && t[i].parent_pid == Some(p)
}

/// The seed pids an identifier selects: the pid itself when present, or
/// every pid whose row carries exactly the given name.
pub open spec fn seed_of(t: Seq<Sample>, id: ProcessIdentifier) -> Set<u64> {
    match id {
        ProcessIdentifier::Pid(p) => if has_pid(t, p) {
            set![p]
        } else {
            Set::empty()
        },
        ProcessIdentifier::Name(n) => Set::new(
            |p: u64| exists|i: int| 0 <= i < t.len() && t[i].pid == p && t[i].name@ == n@,
        ),
    }
}

/// A descent path: it starts at a seed and each step goes to a child.
pub open spec fn chain_ok(t: Seq<Sample>, seeds: Set<u64>, path: Seq<u64>) -> bool {
    &&& path.len() >= 1
    &&& seeds.contains(path[0])
    &&& forall|k: int| 0 <= k < path.len() - 1 ==> #[trigger] is_child(t, path[k], path[k + 1])
}

/// `p` is a seed or a transitive descendant of one.
pub open spec fn reaches(t: Seq<Sample>, seeds: Set<u64>, p: u64) -> bool {
    exists|path: Seq<u64>| chain_ok(t, seeds, path) && path.last() == p
}

/// The relation closure: every pid reachable from the seed set.
pub open spec fn closure(t: Seq<Sample>, seeds: Set<u64>) -> Set<u64> {
    Set::new(|p: u64| reaches(t, seeds, p))
}

pub proof fn lemma_reaches_seed(t: Seq<Sample>, seeds: Set<u64>, p: u64)
    requires
        seeds.contains(p),
    ensures
        reaches(t, seeds, p),
{
    let path: Seq<u64> = seq![p];
    assert(chain_ok(t, seeds, path) && path.last() == p);
}

pub proof fn lemma_reaches_step(t: Seq<Sample>, seeds: Set<u64>, p: u64, c: u64)
    requires
        reaches(t, seeds, p),
        is_child(t, p, c),
    ensures
        reaches(t, seeds, c),
{
    let path = choose|path: Seq<u64>| chain_ok(t, seeds, path) && path.last() == p;
    let ext = path.push(c);
    assert forall|k: int| 0 <= k < ext.len() - 1 implies #[trigger] is_child(t, ext[k], ext[k + 1]) by {
        if k < path.len() - 1 {
            assert(ext[k] == path[k] && ext[k + 1] == path[k + 1]);
        } else {
            assert(ext[k] == path.last() && ext[k + 1] == c);
        }
    }
    assert(chain_ok(t, seeds, ext) && ext.last() == c);
}

/// Any set that contains the seeds and is closed under the child step
/// contains everything a descent path reaches.
pub proof fn lemma_chain_stays(t: Seq<Sample>, seeds: Set<u64>, s: Set<u64>, path: Seq<u64>)
    requires
        chain_ok(t, seeds, path),
        forall|q: u64| seeds.contains(q) ==> s.contains(q),
        forall|a: u64, c: u64| s.contains(a) && #[trigger] is_child(t, a, c) ==> s.contains(c),
    ensures
        s.contains(path.last()),
    decreases path.len(),
{
    if path.len() == 1 {
        assert(s.contains(path[0]));
    } else {
        let pre = path.drop_last();
        assert forall|k: int| 0 <= k < pre.len() - 1 implies #[trigger] is_child(t, pre[k], pre[k + 1]) by {
            assert(pre[k] == path[k] && pre[k + 1] == path[k + 1]);
        }
        assert(chain_ok(t, seeds, pre));
        lemma_chain_stays(t, seeds, s, pre);
        let k = path.len() - 2;
        assert(is_child(t, path[k], path[k + 1]));
        assert(pre.last() == path[k]);
        assert(s.contains(path[k + 1]));
    }
}

/// A duplicate-free sequence of pids that all occur in the snapshot is
/// no longer than the snapshot.
proof fn lemma_order_bound(t: Seq<Sample>, order: Seq<u64>)
    requires
        order.no_duplicates(),
        forall|k: int| 0 <= k < order.len() ==> has_pid(t, order[k]),
    ensures
        order.len() <= t.len(),
{
    broadcast use vstd::seq_lib::seq_to_set_is_finite;

    let pids = t.map_values(|r: Sample| r.pid);
    assert forall|k: int| 0 <= k < order.len() implies pids.to_set().contains(order[k]) by {
        let i = choose|i: int| 0 <= i < t.len() && t[i].pid == order[k];
        assert(pids[i] == order[k]);
        assert(pids.contains(order[k]));
    }
    assert(order.to_set().subset_of(pids.to_set()));
    order.unique_seq_to_set();
    pids.lemma_cardinality_of_set();
    vstd::set_lib::lemma_len_subset(order.to_set(), pids.to_set());
}

/// Whether any pid in the vector equals `x`.
pub fn vec_contains(v: &Vec<u64>, x: u64) -> (r: bool)
    ensures
        r == v@.contains(x),
{
    let n = v.len();
    let mut i: usize = 0;
    while i < n
        invariant
            0 <= i <= n,
            n == v@.len(),
            forall|k: int| 0 <= k < i ==> v@[k] != x,
        decreases n - i,
    {
        if v[i] == x {
            return true;
        }
        i = i + 1;
    }
    false
}

/// Whether any row of the snapshot carries this pid.
fn snapshot_has_pid(snapshot: &Vec<Sample>, p: u64) -> (r: bool)
    ensures
        r == has_pid(snapshot@, p),
{
    let n = snapshot.len();
    let mut i: usize = 0;
    while i < n
        invariant
            0 <= i <= n,
            n == snapshot@.len(),
            forall|k: int| 0 <= k < i ==> snapshot@[k].pid != p,
        decreases n - i,
    {
        if snapshot[i].pid == p {
            return true;
        }
        i = i + 1;
    }
    false
}

/// Whether the identifier matches any live process in the snapshot.
pub fn process_exists(identifier: &ProcessIdentifier, snapshot: &Vec<Sample>) -> (r: bool)
    ensures
        r == (seed_of(snapshot@, *identifier) != Set::<u64>::empty()),
{
    let ghost t = snapshot@;
    let ghost seeds = seed_of(t, *identifier);
    match identifier {
        ProcessIdentifier::Pid(p) => {
            let found = snapshot_has_pid(snapshot, *p);
            proof {
                if found {
                    assert(seeds.contains(*p));
                    assert(!Set::<u64>::empty().contains(*p));
                    assert(seeds != Set::<u64>::empty());
                } else {
                    assert(seeds =~= Set::<u64>::empty());
                }
            }
            found
        },
        ProcessIdentifier::Name(n) => {
            let num = snapshot.len();
            let mut i: usize = 0;
            while i < num
                invariant
                    0 <= i <= num,
                    num == t.len(),
                    t == snapshot@,
                    *identifier == ProcessIdentifier::Name(*n),
                    seeds == seed_of(t, *identifier),
                    forall|k: int| 0 <= k < i ==> t[k].name@ != n@,
                decreases num - i,
            {
                if snapshot[i].name == *n {
                    proof {
                        assert(seeds.contains(t[i as int].pid));
                        assert(!Set::<u64>::empty().contains(t[i as int].pid));
                        assert(seeds != Set::<u64>::empty());
                    }
                    return true;
                }
                i = i + 1;
            }
            proof {
                assert forall|p: u64| !seeds.contains(p) by {}
                assert(seeds =~= Set::<u64>::empty());
            }
            false
        },
    }
}

/// Resolves the monitoring group of an identifier against a snapshot:
/// the matching pids plus all their transitive descendants, in
/// breadth-first discovery order, without duplicates.
///
/// Returns `None` exactly when nothing in the snapshot matches the
/// identifier; a `Some` result is never empty.
#[verifier::rlimit(60)]
pub fn find_all_relation(identifier: &ProcessIdentifier, snapshot: &Vec<Sample>) -> (r: Option<
    Vec<u64>,
>)
    requires
        pids_unique(snapshot@),
    ensures
        r is Some <==> seed_of(snapshot@, *identifier) != Set::<u64>::empty(),
        r is Some ==> {
            let v = r->Some_0;
            &&& v@.no_duplicates()
            &&& v@.len() >= 1
            &&& v@.to_set() == closure(snapshot@, seed_of(snapshot@, *identifier))
            &&& forall|k: int| 0 <= k < v@.len() ==> has_pid(snapshot@, v@[k])
        },
{
    let ghost t = snapshot@;
    let ghost seeds = seed_of(t, *identifier);
    let mut order: Vec<u64> = Vec::new();

    match identifier {
        ProcessIdentifier::Pid(p) => {
            if snapshot_has_pid(snapshot, *p) {
                order.push(*p);
                proof {
                    assert forall|x: u64| order@.contains(x) <==> x == *p by {
                        lemma_push_contains_iff(Seq::<u64>::empty(), *p, x);
                    }
                    assert(order@.to_set() =~= seeds);
                }
            } else {
                proof {
                    assert(seeds =~= Set::<u64>::empty());
                    assert(order@.to_set() =~= seeds);
                }
            }
        },
        ProcessIdentifier::Name(n) => {
            let num = snapshot.len();
            let mut i: usize = 0;
            while i < num
                invariant
                    0 <= i <= num,
                    num == t.len(),
                    t == snapshot@,
                    pids_unique(t),
                    order@.no_duplicates(),
                    forall|k: int| 0 <= k < order@.len() ==> has_pid(t, order@[k]),
                    forall|p: u64|
                        order@.contains(p) <==> exists|j: int|
                            0 <= j < i && t[j].pid == p && t[j].name@ == n@,
                decreases num - i,
            {
                if snapshot[i].name == *n {
                    let ghost before = order@;
                    proof {
                        if before.contains(t[i as int].pid) {
                            let j = choose|j: int|
                                0 <= j < i && t[j].pid == t[i as int].pid && t[j].name@ == n@;
                            assert(false);
                        }
                    }
                    order.push(snapshot[i].pid);
                    proof {
                        assert forall|p: u64|
                            order@.contains(p) <==> exists|j: int|
                                0 <= j < i + 1 && t[j].pid == p && t[j].name@ == n@ by {
                            lemma_push_contains_iff(before, t[i as int].pid, p);
                            if order@.contains(p) {
                                if before.contains(p) {
                                    let j = choose|j: int|
                                        0 <= j < i && t[j].pid == p && t[j].name@ == n@;
                                    assert(0 <= j < i + 1 && t[j].pid == p && t[j].name@ == n@);
                                } else {
                                    assert(t[i as int].pid == p && t[i as int].name@ == n@);
                                }
                            }
                            if exists|j: int| 0 <= j < i + 1 && t[j].pid == p && t[j].name@ == n@ {
                                let j = choose|j: int|
                                    0 <= j < i + 1 && t[j].pid == p && t[j].name@ == n@;
                                if j < i {
                                    assert(before.contains(p));
                                }
                            }
                        }
                    }
                } else {
                    proof {
                        assert forall|p: u64|
                            order@.contains(p) <==> exists|j: int|
                                0 <= j < i + 1 && t[j].pid == p && t[j].name@ == n@ by {
                            if exists|j: int| 0 <= j < i + 1 && t[j].pid == p && t[j].name@ == n@ {
                                let j = choose|j: int|
                                    0 <= j < i + 1 && t[j].pid == p && t[j].name@ == n@;
                                assert(j < i);
                            }
                        }
                    }
                }
                i = i + 1;
            }
            proof {
                assert forall|p: u64| order@.contains(p) implies seeds.contains(p) by {
                    let j = choose|j: int| 0 <= j < i && t[j].pid == p && t[j].name@ == n@;
                    assert(0 <= j < t.len() && t[j].pid == p && t[j].name@ == n@);
                }
                assert forall|p: u64| seeds.contains(p) implies order@.contains(p) by {
                    let j = choose|j: int| 0 <= j < t.len() && t[j].pid == p && t[j].name@ == n@;
                    assert(0 <= j < i && t[j].pid == p && t[j].name@ == n@);
                }
                assert(order@.to_set() =~= seeds);
            }
        },
    }

    if order.len() == 0 {
        proof {
            assert(seeds =~= Set::<u64>::empty()) by {
                assert forall|p: u64| !seeds.contains(p) by {
                    if seeds.contains(p) {
                        assert(order@.to_set().contains(p));
                    }
                }
            }
        }
        return None;
    }
    proof {
        let w = order@[0];
        assert(order@.to_set().contains(w));
        assert(seeds.contains(w));
        assert(!Set::<u64>::empty().contains(w));
        assert(seeds != Set::<u64>::empty());
        assert forall|k: int| 0 <= k < order@.len() implies reaches(t, seeds, order@[k]) by {
            assert(order@.to_set().contains(order@[k]));
            lemma_reaches_seed(t, seeds, order@[k]);
        }
        lemma_order_bound(t, order@);
    }

    let mut i: usize = 0;
    while i < order.len()
        invariant
            t == snapshot@,
            pids_unique(t),
            seeds == seed_of(t, *identifier),
            seeds != Set::<u64>::empty(),
            0 <= i <= order@.len(),
            1 <= order@.len() <= t.len(),
            order@.no_duplicates(),
            forall|k: int| 0 <= k < order@.len() ==> has_pid(t, order@[k]),
            forall|p: u64| seeds.contains(p) ==> order@.contains(p),
            forall|k: int| 0 <= k < order@.len() ==> reaches(t, seeds, order@[k]),
            forall|k: int, c: u64|
                0 <= k < i && #[trigger] is_child(t, order@[k], c) ==> order@.contains(c),
        decreases (t.len() - order@.len()), (order@.len() - i),
    {
        let current = order[i];
        let num = snapshot.len();
        let ghost entry_len = order@.len();
        let mut j: usize = 0;
        while j < num
            invariant
                t == snapshot@,
                pids_unique(t),
                seeds == seed_of(t, *identifier),
                num == t.len(),
                0 <= j <= num,
                0 <= i < order@.len(),
                entry_len <= order@.len(),
                current == order@[i as int],
                1 <= order@.len() <= t.len(),
                order@.no_duplicates(),
                forall|k: int| 0 <= k < order@.len() ==> has_pid(t, order@[k]),
                forall|p: u64| seeds.contains(p) ==> order@.contains(p),
                forall|k: int| 0 <= k < order@.len() ==> reaches(t, seeds, order@[k]),
                forall|k: int, c: u64|
                    0 <= k < i && #[trigger] is_child(t, order@[k], c) ==> order@.contains(c),
                forall|jj: int|
                    0 <= jj < j && t[jj].parent_pid == Some(current) ==> order@.contains(t[jj].pid),
            decreases num - j,
        {
            let is_kid = match snapshot[j].parent_pid {
                Some(pp) => pp == current,
                None => false,
            };
            if is_kid {
                let child = snapshot[j].pid;
                if !vec_contains(&order, child) {
                    let ghost before = order@;
                    order.push(child);
                    proof {
                        assert(order@ == before.push(child));
                        assert forall|p: u64| before.contains(p) implies order@.contains(p) by {
                            lemma_push_contains_iff(before, child, p);
                        }
                        assert(order@.contains(child)) by {
                            lemma_push_contains_iff(before, child, child);
                        }
                        assert forall|p: u64| order@.contains(p) implies before.contains(p) || p
                            == child by {
                            lemma_push_contains_iff(before, child, p);
                        }
                        assert(is_child(t, current, child)) by {
                            assert(t[j as int].pid == child && t[j as int].parent_pid == Some(
                                current,
                            ));
                        }
                        assert(reaches(t, seeds, child)) by {
                            lemma_reaches_step(t, seeds, current, child);
                        }
                        assert(has_pid(t, child));
                        lemma_order_bound(t, order@);
                    }
                }
            }
            j = j + 1;
        }
        proof {
            assert forall|c: u64| #[trigger] is_child(t, order@[i as int], c) implies order@.contains(
                c,
            ) by {
                let jj = choose|jj: int|
                    0 <= jj < t.len() && t[jj].pid == c && t[jj].parent_pid == Some(current);
                assert(t[jj].parent_pid == Some(current));
            }
        }
        i = i + 1;
    }

    proof {
        assert(order@.to_set() =~= closure(t, seeds)) by {
            assert forall|p: u64| order@.to_set().contains(p) implies closure(t, seeds).contains(
                p,
            ) by {
                let k = choose|k: int| 0 <= k < order@.len() && order@[k] == p;
                assert(reaches(t, seeds, order@[k]));
            }
            assert forall|p: u64| closure(t, seeds).contains(p) implies order@.to_set().contains(
                p,
            ) by {
                let path = choose|path: Seq<u64>| chain_ok(t, seeds, path) && path.last() == p;
                assert forall|q: u64| seeds.contains(q) implies order@.to_set().contains(q) by {
                    assert(order@.contains(q));
                }
                assert forall|a: u64, c: u64|
                    order@.to_set().contains(a) && #[trigger] is_child(t, a, c)
                        implies order@.to_set().contains(c) by {
                    let k = choose|k: int| 0 <= k < order@.len() && order@[k] == a;
                    assert(is_child(t, order@[k], c));
                    assert(order@.contains(c));
                }
                lemma_chain_stays(t, seeds, order@.to_set(), path);
            }
        }
    }
    Some(order)
}


/// Whatever the resolver reaches is a live pid: the relation closure
/// only ever contains pids present in the snapshot.
pub proof fn lemma_reaches_has_pid(t: Seq<Sample>, id: ProcessIdentifier, p: u64)
    requires
        reaches(t, seed_of(t, id), p),
    ensures
        has_pid(t, p),
{
    let seeds = seed_of(t, id);
    let path = choose|path: Seq<u64>| chain_ok(t, seeds, path) && path.last() == p;
    if path.len() == 1 {
        assert(seeds.contains(p));
        match id {
            ProcessIdentifier::Pid(q) => {
                assert(has_pid(t, q));
            },
            ProcessIdentifier::Name(n) => {
                let i = choose|i: int| 0 <= i < t.len() && t[i].pid == p && t[i].name@ == n@;
                assert(t[i].pid == p);
            },
        }
    } else {
        let k = path.len() - 2;
        assert(is_child(t, path[k], path[k + 1]));
        let i = choose|i: int|
            0 <= i < t.len() && t[i].pid == path[k + 1] && t[i].parent_pid == Some(path[k]);
        assert(t[i].pid == p);
    }
}

/// The refresh-interval gate: ticks are attempted only when at least the
/// configured interval has elapsed since the last recorded refresh.
/// Time is carried as caller-supplied milliseconds.
pub struct ProcessMonitor {
    last_update_ms: u64,
    update_interval_ms: u64,
}

impl ProcessMonitor {
    /// The configured refresh interval in milliseconds.
    pub closed spec fn interval(self) -> u64 {
        self.update_interval_ms
    }

    /// When the last refresh was recorded, in milliseconds.
    pub closed spec fn last_update(self) -> u64 {
        self.last_update_ms
    }

    pub fn new(update_interval_ms: u64) -> (r: Self)
        ensures
            r.interval() == update_interval_ms,
            r.last_update() == 0,
    {
        ProcessMonitor { last_update_ms: 0, update_interval_ms }
    }

    pub fn update_interval(&self) -> (r: u64)
        ensures
            r == self.interval(),
    {
        self.update_interval_ms
    }

    pub fn set_update_interval(&mut self, interval_ms: u64)
        ensures
            final(self).interval() == interval_ms,
            final(self).last_update() == old(self).last_update(),
    {
        self.update_interval_ms = interval_ms;
    }

    /// Whether a refresh is due: the interval has elapsed since the last
    /// recorded refresh (a clock that moved backwards is never due).
    pub fn should_update(&self, now_ms: u64) -> (r: bool)
        ensures
            r == (self.last_update() <= now_ms && now_ms - self.last_update() >= self.interval()),
    {
        self.last_update_ms <= now_ms && now_ms - self.last_update_ms >= self.update_interval_ms
    }

    /// Records that a refresh ran now.
    pub fn update(&mut self, now_ms: u64)
        ensures
            final(self).last_update() == now_ms,
            final(self).interval() == old(self).interval(),
    {
        self.last_update_ms = now_ms;
    }
}

} // verus!
