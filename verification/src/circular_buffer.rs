//! A fixed-capacity circular buffer of scalar measurements with O(1)
//! push, last, peak and average queries.
//!
//! The buffer is modelled by the full sequence of values ever pushed
//! (a ghost field); the retained window is the last `capacity` of them,
//! and every query is specified against that window.

use vstd::prelude::*;

verus! {

/// The retained window of a push sequence: the last `cap` values pushed,
/// or all of them while fewer have been pushed. Chronological order,
/// newest last.
pub open spec fn window_of(pushes: Seq<u64>, cap: nat) -> Seq<u64> {
    if pushes.len() <= cap {
        pushes
    } else {
        pushes.subrange(pushes.len() - cap, pushes.len() as int)
    }
}

/// One step of the window under a push: append, evicting the oldest
/// value once the window is full.
pub open spec fn slide(w: Seq<u64>, v: u64, cap: nat) -> Seq<u64> {
    if w.len() < cap {
        w.push(v)
    } else {
        w.drop_first().push(v)
    }
}

/// Largest value of a window; an empty window has maximum 0, the value
/// every query on an empty metric reports.
pub open spec fn max_of(s: Seq<u64>) -> u64
    decreases s.len(),
{
    if s.len() == 0 {
        0u64
    } else if s.last() >= max_of(s.drop_last()) {
        s.last()
    } else {
        max_of(s.drop_last())
    }
}

/// Sum of the values of a window, as an unbounded integer.
pub open spec fn sum_of(s: Seq<u64>) -> int
    decreases s.len(),
{
    if s.len() == 0 {
        0
    } else {
        sum_of(s.drop_last()) + s.last()
    }
}

pub proof fn lemma_max_of_bound(s: Seq<u64>)
    ensures
        forall|i: int| 0 <= i < s.len() ==> s[i] <= max_of(s),
    decreases s.len(),
{
    if s.len() > 0 {
        lemma_max_of_bound(s.drop_last());
        assert forall|i: int| 0 <= i < s.len() implies s[i] <= max_of(s) by {
            if i < s.len() - 1 {
                assert(s.drop_last()[i] == s[i]);
            }
        }
    }
}

pub proof fn lemma_max_of_attained(s: Seq<u64>)
    requires
        s.len() > 0,
    ensures
        exists|i: int| 0 <= i < s.len() && s[i] == max_of(s),
    decreases s.len(),
{
    if s.last() >= max_of(s.drop_last()) {
        assert(s[s.len() - 1] == max_of(s));
    } else {
        lemma_max_of_attained(s.drop_last());
        let i = choose|i: int| 0 <= i < s.drop_last().len() && s.drop_last()[i] == max_of(
            s.drop_last(),
        );
        assert(s[i] == max_of(s));
    }
}

/// A value that bounds the window from above and occurs in it is its
/// maximum.
pub proof fn lemma_max_of_is(s: Seq<u64>, m: u64)
    requires
        forall|i: int| 0 <= i < s.len() ==> s[i] <= m,
        exists|i: int| 0 <= i < s.len() && s[i] == m,
    ensures
        max_of(s) == m,
{
    lemma_max_of_bound(s);
    lemma_max_of_attained(s);
}

pub proof fn lemma_sum_of_push(s: Seq<u64>, v: u64)
    ensures
        sum_of(s.push(v)) == sum_of(s) + v,
{
    assert(s.push(v).drop_last() =~= s);
    assert(s.push(v).last() == v);
}

pub proof fn lemma_sum_of_drop_first(s: Seq<u64>)
    requires
        s.len() >= 1,
    ensures
        sum_of(s.drop_first()) == sum_of(s) - s[0],
    decreases s.len(),
{
    if s.len() == 1 {
        assert(s.drop_first() =~= Seq::<u64>::empty());
        assert(sum_of(Seq::<u64>::empty()) == 0);
        assert(s.drop_last() =~= Seq::<u64>::empty());
        assert(sum_of(s) == sum_of(s.drop_last()) + s.last());
    } else {
        let t = s.drop_first();
        lemma_sum_of_drop_first(s.drop_last());
        assert(t.drop_last() =~= s.drop_last().drop_first());
        assert(sum_of(t) == sum_of(t.drop_last()) + t.last());
        assert(t.last() == s.last());
        assert(sum_of(s) == sum_of(s.drop_last()) + s.last());
        assert(s.drop_last()[0] == s[0]);
    }
}

pub proof fn lemma_sum_of_le_len_times_max(s: Seq<u64>)
    ensures
        0 <= sum_of(s) <= s.len() * max_of(s),
    decreases s.len(),
{
    if s.len() > 0 {
        lemma_sum_of_le_len_times_max(s.drop_last());
        let n = s.len() - 1;
        let md = max_of(s.drop_last());
        let m = max_of(s);
        assert(md <= m && s.last() <= m);
        assert(n * md <= n * m) by (nonlinear_arith)
            requires
                0 <= n,
                0 <= md <= m,
        ;
        assert(n * m + m == s.len() * m) by (nonlinear_arith)
            requires
                n == s.len() - 1,
        ;
    }
}

/// Advancing the push sequence advances the window by one `slide` step.
pub proof fn lemma_window_push(pushes: Seq<u64>, v: u64, cap: nat)
    requires
        cap >= 1,
    ensures
        window_of(pushes.push(v), cap) == slide(window_of(pushes, cap), v, cap),
{
    if pushes.len() < cap {
        assert(window_of(pushes.push(v), cap) =~= window_of(pushes, cap).push(v));
    } else {
        assert(window_of(pushes.push(v), cap) =~= window_of(pushes, cap).drop_first().push(v));
    }
}


/// Pushing a value at least as large as the window maximum makes it the
/// new maximum, whether or not the oldest value is evicted.
pub proof fn lemma_max_slide_top(w: Seq<u64>, v: u64, cap: nat)
    requires
        cap >= 1,
        v >= max_of(w),
    ensures
        max_of(slide(w, v, cap)) == v,
{
    let s = slide(w, v, cap);
    lemma_max_of_bound(w);
    assert forall|i: int| 0 <= i < s.len() implies s[i] <= v by {
        if i < s.len() - 1 {
            if w.len() < cap {
                assert(s[i] == w[i]);
            } else {
                assert(s[i] == w[i + 1]);
            }
        }
    }
    assert(s[s.len() - 1] == v);
    lemma_max_of_is(s, v);
}

/// Appending a value no larger than the maximum leaves the maximum.
pub proof fn lemma_max_grow_keep(w: Seq<u64>, v: u64)
    requires
        v <= max_of(w),
    ensures
        max_of(w.push(v)) == max_of(w),
{
    let s = w.push(v);
    if w.len() == 0 {
        assert(v == 0);
        assert(s.len() == 1 && s[0] == 0);
        lemma_max_of_is(s, 0);
    } else {
        lemma_max_of_bound(w);
        lemma_max_of_attained(w);
        let j = choose|j: int| 0 <= j < w.len() && w[j] == max_of(w);
        assert(s[j] == max_of(w));
        lemma_max_of_is(s, max_of(w));
    }
}

/// Evicting an oldest value that was not the maximum, for a new value
/// below the maximum, leaves the maximum.
pub proof fn lemma_max_evict_keep(w: Seq<u64>, v: u64)
    requires
        w.len() >= 1,
        v < max_of(w),
        w[0] != max_of(w),
    ensures
        max_of(w.drop_first().push(v)) == max_of(w),
{
    let s = w.drop_first().push(v);
    lemma_max_of_bound(w);
    lemma_max_of_attained(w);
    let j = choose|j: int| 0 <= j < w.len() && w[j] == max_of(w);
    assert(j != 0);
    assert(s[j - 1] == max_of(w));
    assert forall|i: int| 0 <= i < s.len() implies s[i] <= max_of(w) by {
        if i < s.len() - 1 {
            assert(s[i] == w[i + 1]);
        }
    }
    lemma_max_of_is(s, max_of(w));
}

/// A window of at most `u64::MAX` values leaves the running sum far
/// below `u128::MAX`.
pub proof fn lemma_sum_fits(s: Seq<u64>)
    requires
        s.len() <= u64::MAX,
    ensures
        0 <= sum_of(s),
        sum_of(s) + u64::MAX < u128::MAX,
{
    lemma_sum_of_le_len_times_max(s);
    assert(s.len() * max_of(s) <= (u64::MAX as int) * (u64::MAX as int)) by (nonlinear_arith)
        requires
            0 <= s.len() <= u64::MAX as int,
            0 <= max_of(s) <= u64::MAX as int,
    ;
}

/// `push` adds exactly one membership: the pushed value.
pub proof fn lemma_push_contains_iff(s: Seq<u64>, x: u64, c: u64)
    ensures
        s.push(x).contains(c) <==> (s.contains(c) || c == x),
{
    if s.push(x).contains(c) {
        let i = choose|i: int| 0 <= i < s.push(x).len() && s.push(x)[i] == c;
        if i < s.len() {
            assert(s[i] == c);
        }
    }
    if s.contains(c) {
        let i = choose|i: int| 0 <= i < s.len() && s[i] == c;
        assert(s.push(x)[i] == c);
    }
    if c == x {
        assert(s.push(x)[s.len() as int] == c);
    }
}

/// A fixed-capacity ring of the most recent scalar samples, keeping a
/// running sum for O(1) averages and a cached peak, recomputed only
/// when the evicted value may have held it.
pub struct CircularBuffer {
    data: Vec<u64>,
    write_pos: usize,
    len: usize,
    capacity: usize,
    total: u128,
    peak: u64,
    pushed: Ghost<Seq<u64>>,
}

impl View for CircularBuffer {
    type V = Seq<u64>;

    /// The retained window in chronological order, newest last.
    closed spec fn view(&self) -> Seq<u64> {
        if self.len < self.capacity {
            self.data@.subrange(0, self.len as int)
        } else {
            self.data@.subrange(self.write_pos as int, self.capacity as int) + self.data@.subrange(
                0,
                self.write_pos as int,
            )
        }
    }
}

impl CircularBuffer {
    /// The configured capacity: the most samples ever retained.
    pub closed spec fn cap(self) -> nat {
        self.capacity as nat
    }

    /// Every value ever pushed, in order.
    pub closed spec fn pushes(self) -> Seq<u64> {
        self.pushed@
    }

    spec fn shape_wf(self) -> bool {
        &&& self.capacity >= 1
        &&& self.len <= self.capacity
        &&& self.data@.len() == self.capacity
        &&& (if self.len < self.capacity {
            self.write_pos == self.len
        } else {
            self.write_pos < self.capacity
        })
    }

    /// Well-formedness: the cached fields agree with the window model.
    pub closed spec fn wf(self) -> bool {
        &&& self.shape_wf()
        &&& self@ == window_of(self.pushed@, self.capacity as nat)
        &&& self.total == sum_of(self@)
        &&& self.peak == max_of(self@)
    }

    pub fn new(capacity: usize) -> (r: Self)
        requires
            capacity >= 1,
        ensures
            r.wf(),
            r.cap() == capacity,
            r.pushes() == Seq::<u64>::empty(),
            r@ == Seq::<u64>::empty(),
    {
        let mut data: Vec<u64> = Vec::new();
        let mut i: usize = 0;
        while i < capacity
            invariant
                0 <= i <= capacity,
                data@.len() == i,
            decreases capacity - i,
        {
            data.push(0);
            i = i + 1;
        }
        let r = Self {
            data,
            write_pos: 0,
            len: 0,
            capacity,
            total: 0,
            peak: 0,
            pushed: Ghost(Seq::empty()),
        };
        proof {
            assert(r@ =~= Seq::<u64>::empty());
        }
        r
    }

    pub fn len(&self) -> (r: usize)
        requires
            self.wf(),
        ensures
            r == self@.len(),
    {
        self.len
    }

    pub fn capacity(&self) -> (r: usize)
        requires
            self.wf(),
        ensures
            r == self.cap(),
    {
        self.capacity
    }

    /// Appends a value, evicting the oldest one once the window is full.
    pub fn push(&mut self, value: u64)
        requires
            old(self).wf(),
        ensures
            final(self).wf(),
            final(self).cap() == old(self).cap(),
            final(self).pushes() == old(self).pushes().push(value),
            final(self)@ == slide(old(self)@, value, old(self).cap()),
    {
        if self.len == self.capacity {
            self.push_evict(value);
        } else {
            self.push_grow(value);
        }
    }

    /// The full-window case: overwrite the oldest slot.
    #[verifier::rlimit(60)]
    fn push_evict(&mut self, value: u64)
        requires
            old(self).wf(),
            old(self).len == old(self).capacity,
        ensures
            final(self).wf(),
            final(self).cap() == old(self).cap(),
            final(self).pushes() == old(self).pushes().push(value),
            final(self)@ == slide(old(self)@, value, old(self).cap()),
    {
        let ghost prev = *self;
        let evicted = self.data[self.write_pos];
        proof {
            assert(prev@[0] == evicted);
            lemma_sum_of_drop_first(prev@);
            lemma_sum_fits(prev@.drop_first());
        }
        self.total = self.total - evicted as u128;
        self.data[self.write_pos] = value;
        self.write_pos = if self.write_pos + 1 == self.capacity {
            0
        } else {
            self.write_pos + 1
        };
        proof {
            assert(self@ =~= prev@.drop_first().push(value));
            lemma_sum_of_push(prev@.drop_first(), value);
        }
        self.total = self.total + value as u128;
        if value >= self.peak {
            self.peak = value;
            proof {
                lemma_max_slide_top(prev@, value, prev.capacity as nat);
            }
        } else if evicted == self.peak {
            let m = self.scan_max();
            self.peak = m;
        } else {
            proof {
                lemma_max_evict_keep(prev@, value);
            }
        }
        proof {
            self.pushed@ = prev.pushed@.push(value);
            lemma_window_push(prev.pushed@, value, prev.capacity as nat);
        }
    }

    /// The growing case: the window is not yet full.
    #[verifier::rlimit(60)]
    fn push_grow(&mut self, value: u64)
        requires
            old(self).wf(),
            old(self).len < old(self).capacity,
        ensures
            final(self).wf(),
            final(self).cap() == old(self).cap(),
            final(self).pushes() == old(self).pushes().push(value),
            final(self)@ == slide(old(self)@, value, old(self).cap()),
    {
        let ghost prev = *self;
        self.data[self.write_pos] = value;
        self.len = self.len + 1;
        self.write_pos = if self.write_pos + 1 == self.capacity {
            0
        } else {
            self.write_pos + 1
        };
        proof {
            if self.len < self.capacity {
                assert(self@ =~= prev@.push(value));
            } else {
                assert(self@ =~= self.data@.subrange(0, self.capacity as int) + self
                    .data@.subrange(0, 0));
                assert(self@ =~= prev@.push(value));
            }
            lemma_sum_of_push(prev@, value);
            lemma_sum_fits(prev@);
        }
        self.total = self.total + value as u128;
        if value > self.peak {
            self.peak = value;
            proof {
                lemma_max_slide_top(prev@, value, prev.capacity as nat);
            }
        } else {
            proof {
                lemma_max_grow_keep(prev@, value);
            }
        }
        proof {
            self.pushed@ = prev.pushed@.push(value);
            lemma_window_push(prev.pushed@, value, prev.capacity as nat);
        }
    }

    /// Recomputes the maximum of the stored values by scanning them.
    fn scan_max(&self) -> (r: u64)
        requires
            self.shape_wf(),
        ensures
            r == max_of(self@),
    {
        let mut m: u64 = 0;
        let mut k: usize = 0;
        while k < self.len
            invariant
                0 <= k <= self.len,
                self.shape_wf(),
                m == max_of(self@.subrange(0, k as int)),
            decreases self.len - k,
        {
            let idx = if self.len < self.capacity {
                k
            } else if k < self.capacity - self.write_pos {
                self.write_pos + k
            } else {
                k - (self.capacity - self.write_pos)
            };
            let v = self.data[idx];
            proof {
                assert(self@[k as int] == self.data@[idx as int]);
                assert(self@.subrange(0, k + 1).drop_last() =~= self@.subrange(0, k as int));
                assert(self@.subrange(0, k + 1).last() == v);
            }
            if v > m {
                m = v;
            }
            k = k + 1;
        }
        proof {
            assert(self@.subrange(0, self.len as int) =~= self@);
        }
        m
    }

    /// The most recently pushed value still retained, or 0 when empty.
    pub fn last_value(&self) -> (r: u64)
        requires
            self.wf(),
        ensures
            self@ == window_of(self.pushes(), self.cap()),
            r == if self@.len() == 0 {
                0u64
            } else {
                self@.last()
            },
    {
        if self.len == 0 {
            0
        } else if self.write_pos == 0 {
            self.data[self.capacity - 1]
        } else {
            self.data[self.write_pos - 1]
        }
    }

    /// The exact maximum of the retained window: equal to
    /// `max_of(window_of(pushes, cap))` after any sequence of pushes.
    pub fn max_value(&self) -> (r: u64)
        requires
            self.wf(),
        ensures
            r == max_of(self@),
            r == max_of(window_of(self.pushes(), self.cap())),
    {
        self.peak
    }

    /// The mean of the retained window, rounded toward zero; 0 when
    /// empty.
    pub fn average(&self) -> (r: u64)
        requires
            self.wf(),
        ensures
            self@ == window_of(self.pushes(), self.cap()),
            self@.len() == 0 ==> r == 0,
            self@.len() > 0 ==> r == sum_of(self@) / self@.len() as int,
    {
        if self.len == 0 {
            0
        } else {
            proof {
                lemma_sum_of_le_len_times_max(self@);
                assert(sum_of(self@) / self@.len() as int <= max_of(self@)) by (nonlinear_arith)
                    requires
                        self@.len() > 0,
                        0 <= sum_of(self@) <= self@.len() * max_of(self@),
                ;
            }
            (self.total / self.len as u128) as u64
        }
    }

    /// A copy of the retained window in chronological order: the last
    /// `min(pushes, capacity)` pushed values, oldest first.
    pub fn as_vec(&self) -> (r: Vec<u64>)
        requires
            self.wf(),
        ensures
            r@ == self@,
            r@ == window_of(self.pushes(), self.cap()),
            r@.len() == if self.pushes().len() <= self.cap() {
                self.pushes().len()
            } else {
                self.cap()
            },
    {
        let mut r: Vec<u64> = Vec::new();
        let mut k: usize = 0;
        while k < self.len
            invariant
                0 <= k <= self.len,
                self.wf(),
                r@ =~= self@.subrange(0, k as int),
            decreases self.len - k,
        {
            let idx = if self.len < self.capacity {
                k
            } else if k < self.capacity - self.write_pos {
                self.write_pos + k
            } else {
                k - (self.capacity - self.write_pos)
            };
            r.push(self.data[idx]);
            proof {
                assert(self@[k as int] == self.data@[idx as int]);
                assert(r@ =~= self@.subrange(0, k + 1));
            }
            k = k + 1;
        }
        proof {
            assert(r@ =~= self@);
        }
        r
    }
}

} // verus!
