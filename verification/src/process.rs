//! Process-level data types: identifiers chosen by the user, snapshot
//! rows supplied by the platform collaborator, and the derived
//! per-process and per-group statistics records.
//!
//! CPU load is carried as a fixed-point integer (the caller picks the
//! scale, e.g. hundredths of a percent); memory is carried in bytes.

use vstd::prelude::*;

verus! {

/// The handle a user attaches to monitoring: a process name or a pid.
#[derive(Debug, PartialEq, Eq, Hash)]
pub enum ProcessIdentifier {
    Name(String),
    Pid(u64),
}

impl Clone for ProcessIdentifier {
    fn clone(&self) -> (res: Self)
        ensures
            res == *self,
    {
        match self {
            ProcessIdentifier::Name(n) => ProcessIdentifier::Name(n.clone()),
            ProcessIdentifier::Pid(p) => ProcessIdentifier::Pid(*p),
        }
    }
}

/// Structural equality of identifiers: same variant, same name text or
/// same pid.
pub open spec fn id_eq(a: ProcessIdentifier, b: ProcessIdentifier) -> bool {
    match (a, b) {
        (ProcessIdentifier::Name(x), ProcessIdentifier::Name(y)) => x@ == y@,
        (ProcessIdentifier::Pid(x), ProcessIdentifier::Pid(y)) => x == y,
        _ => false,
    }
}

/// Decides `id_eq` executably.
pub fn identifier_eq(a: &ProcessIdentifier, b: &ProcessIdentifier) -> (r: bool)
    ensures
        r == id_eq(*a, *b),
{
    match (a, b) {
        (ProcessIdentifier::Name(x), ProcessIdentifier::Name(y)) => *x == *y,
        (ProcessIdentifier::Pid(x), ProcessIdentifier::Pid(y)) => *x == *y,
        _ => false,
    }
}

impl ProcessIdentifier {
    /// The pid for a pid-identifier, `None` for a name.
    pub fn to_pid(&self) -> (r: Option<u64>)
        ensures
            r == match *self {
                ProcessIdentifier::Pid(p) => Some(p),
                ProcessIdentifier::Name(_) => None::<u64>,
            },
    {
        match self {
            ProcessIdentifier::Pid(pid) => Some(*pid),
            ProcessIdentifier::Name(_) => None,
        }
    }
}

/// One row of a process snapshot: a point-in-time fact about one
/// process (or one lightweight thread), supplied fresh on every tick.
#[derive(Debug)]
pub struct Sample {
    /// Unique among the rows of one snapshot.
    pub pid: u64,
    /// May name a pid absent from the snapshot if the parent exited.
    pub parent_pid: Option<u64>,
    pub name: String,
    /// Fixed-point CPU load, non-negative, unbounded above.
    pub cpu: u64,
    /// Resident memory in bytes; 0 for thread rows.
    pub memory: u64,
    /// True for a lightweight thread rather than a full process.
    pub is_thread: bool,
}

impl Clone for Sample {
    fn clone(&self) -> (res: Self)
        ensures
            res == *self,
    {
        Sample {
            pid: self.pid,
            parent_pid: self.parent_pid,
            name: self.name.clone(),
            cpu: self.cpu,
            memory: self.memory,
            is_thread: self.is_thread,
        }
    }
}

/// Pid uniqueness within one snapshot: the only shape assumption the
/// engine makes about the collaborator's table.
pub open spec fn pids_unique(t: Seq<Sample>) -> bool {
    forall|i: int, j: int| 0 <= i < j < t.len() ==> t[i].pid != t[j].pid
}

/// Whether some row of the snapshot carries this pid.
pub open spec fn has_pid(t: Seq<Sample>, p: u64) -> bool {
    exists|i: int| 0 <= i < t.len() && t[i].pid == p
}

/// The index of the row carrying `p`; meaningful under `has_pid`.
pub open spec fn idx_of(t: Seq<Sample>, p: u64) -> int {
    choose|i: int| 0 <= i < t.len() && t[i].pid == p
}

/// The row carrying `p`; meaningful under `has_pid`.
pub open spec fn row_of(t: Seq<Sample>, p: u64) -> Sample
    recommends
        has_pid(t, p),
{
    t[idx_of(t, p)]
}

/// Under pid uniqueness, any row that carries `p` is the row of `p`.
pub proof fn lemma_row_of_unique(t: Seq<Sample>, i: int)
    requires
        pids_unique(t),
        0 <= i < t.len(),
    ensures
        has_pid(t, t[i].pid),
        idx_of(t, t[i].pid) == i,
        row_of(t, t[i].pid) == t[i],
{
    let p = t[i].pid;
    assert(has_pid(t, p));
    let j = idx_of(t, p);
    assert(0 <= j < t.len() && t[j].pid == p);
    if i < j {
        assert(t[i].pid != t[j].pid);
    } else if j < i {
        assert(t[j].pid != t[i].pid);
    }
}

/// Extending a prefix by one row adds exactly that row's pid.
pub proof fn lemma_has_pid_extend(t: Seq<Sample>, j: int)
    requires
        0 <= j < t.len(),
    ensures
        forall|p: u64|
            #[trigger] has_pid(t.take(j + 1), p) <==> (has_pid(t.take(j), p) || t[j].pid == p),
{
    assert forall|p: u64|
        #[trigger] has_pid(t.take(j + 1), p) <==> (has_pid(t.take(j), p) || t[j].pid == p) by {
        if has_pid(t.take(j + 1), p) {
            let ii = choose|ii: int| 0 <= ii < t.take(j + 1).len() && (#[trigger] t.take(j + 1)[ii]).pid == p;
            if ii < j {
                assert(t.take(j)[ii].pid == p);
            } else {
                assert(t.take(j + 1)[ii] == t[j]);
            }
        }
        if has_pid(t.take(j), p) {
            let ii = choose|ii: int| 0 <= ii < t.take(j).len() && (#[trigger] t.take(j)[ii]).pid == p;
            assert(t.take(j + 1)[ii].pid == p);
        }
        if t[j].pid == p {
            assert(t.take(j + 1)[j].pid == p);
        }
    }
}

/// Looks a row up by pid; `Some` exactly when the snapshot has the pid.
pub fn get_process_by_pid(snapshot: &Vec<Sample>, pid: u64) -> (r: Option<Sample>)
    requires
        pids_unique(snapshot@),
    ensures
        r is Some <==> has_pid(snapshot@, pid),
        r is Some ==> r->Some_0 == row_of(snapshot@, pid),
{
    let n = snapshot.len();
    let mut i: usize = 0;
    while i < n
        invariant
            0 <= i <= n,
            n == snapshot@.len(),
            pids_unique(snapshot@),
            forall|k: int| 0 <= k < i ==> snapshot@[k].pid != pid,
        decreases n - i,
    {
        if snapshot[i].pid == pid {
            proof {
                lemma_row_of_unique(snapshot@, i as int);
            }
            return Some(snapshot[i].clone());
        }
        i = i + 1;
    }
    None
}

/// One member's record in a group's last computed result: the current
/// sample joined with the peak and average of its retained history.
#[derive(Debug)]
pub struct ProcessInfo {
    pub name: String,
    pub pid: u64,
    pub parent_pid: Option<u64>,
    pub is_thread: bool,
    pub current_cpu: u64,
    pub avg_cpu: u64,
    pub peak_cpu: u64,
    pub current_memory: u64,
    pub peak_memory: u64,
    pub avg_memory: u64,
}

impl Clone for ProcessInfo {
    fn clone(&self) -> (res: Self)
        ensures
            res == *self,
    {
        ProcessInfo {
            name: self.name.clone(),
            pid: self.pid,
            parent_pid: self.parent_pid,
            is_thread: self.is_thread,
            current_cpu: self.current_cpu,
            avg_cpu: self.avg_cpu,
            peak_cpu: self.peak_cpu,
            current_memory: self.current_memory,
            peak_memory: self.peak_memory,
            avg_memory: self.avg_memory,
        }
    }
}

/// Aggregate statistics of one monitored group for one tick.
#[derive(Clone, Copy, Debug)]
pub struct ProcessGeneralStats {
    pub current_cpu: u64,
    pub peak_cpu: u64,
    pub avg_cpu: u64,
    pub current_memory: u64,
    pub peak_memory: u64,
    pub avg_memory: u64,
    pub process_count: usize,
    pub thread_count: usize,
}

impl ProcessGeneralStats {
    /// All-zero statistics: the state of a group with no live members.
    pub open spec fn zeroed() -> ProcessGeneralStats {
        ProcessGeneralStats {
            current_cpu: 0,
            peak_cpu: 0,
            avg_cpu: 0,
            current_memory: 0,
            peak_memory: 0,
            avg_memory: 0,
            process_count: 0,
            thread_count: 0,
        }
    }
}

impl Default for ProcessGeneralStats {
    fn default() -> (r: Self)
        ensures
            r == Self::zeroed(),
    {
        ProcessGeneralStats {
            current_cpu: 0,
            peak_cpu: 0,
            avg_cpu: 0,
            current_memory: 0,
            peak_memory: 0,
            avg_memory: 0,
            process_count: 0,
            thread_count: 0,
        }
    }
}

/// Which statistic a member list is ordered by in a view.
#[derive(Clone, Copy, Debug, PartialEq, Eq)]
pub enum SortType {
    AvgCpu,
    Memory,
}

impl Default for SortType {
    fn default() -> (r: Self)
        ensures
            r is AvgCpu,
    {
        SortType::AvgCpu
    }
}

/// Which series a view is displaying.
#[derive(Clone, Copy, Debug, PartialEq, Eq)]
pub enum MetricType {
    Cpu,
    Memory,
}

impl Default for MetricType {
    fn default() -> (r: Self)
        ensures
            r is Cpu,
    {
        MetricType::Cpu
    }
}

/// The unit a view divides raw byte counts by.
#[derive(Clone, Copy, Debug, PartialEq, Eq)]
pub enum MemoryUnit {
    Bytes,
    Kilobytes,
    Megabytes,
    Gigabytes,
}

impl MemoryUnit {
    /// How many bytes one displayed unit stands for.
    pub fn divisor(&self) -> (r: u64)
        ensures
            r == match *self {
                MemoryUnit::Bytes => 1u64,
                MemoryUnit::Kilobytes => 1024u64,
                MemoryUnit::Megabytes => 1048576u64,
                MemoryUnit::Gigabytes => 1073741824u64,
            },
    {
        match self {
            MemoryUnit::Bytes => 1,
            MemoryUnit::Kilobytes => 1024,
            MemoryUnit::Megabytes => 1048576,
            MemoryUnit::Gigabytes => 1073741824,
        }
    }
}

} // verus!
